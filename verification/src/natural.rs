//! Natural numbers of any size.
//!
//! Weights, class totals and padding overheads are sums and products of inputs
//! that have no useful upper bound, so the whole library computes with exact
//! naturals rather than with machine words.

use vstd::arithmetic::div_mod::lemma_fundamental_div_mod_converse;
use vstd::arithmetic::power::{lemma_pow0, lemma_pow_positive, pow};
use vstd::arithmetic::power2::{
    lemma2_to64, lemma_pow2_adds, lemma_pow2_pos, lemma_pow2_unfold, pow2,
};
use vstd::prelude::*;

verus! {

/// The base in which a `Nat` is stored: one digit per `u32`.
pub const BASE: u64 = 0x1_0000_0000;

/// The number that a little-endian sequence of base-`BASE` digits denotes.
pub open spec fn digits_value(s: Seq<u32>) -> nat
    decreases s.len(),
{
    if s.len() == 0 {
        0
    } else {
        (s[0] as nat) + (BASE as nat) * digits_value(s.drop_first())
    }
}

/// A natural number of any size.
///
/// The digits are stored least significant first, without leading zeros.
#[derive(Debug)]
pub struct Nat {
    digits: Vec<u32>,
}

impl View for Nat {
    type V = nat;

    closed spec fn view(&self) -> nat {
        digits_value(self.digits@)
    }
}

/// `b` raised to `e` in the digit base.
spec fn base_pow(e: nat) -> int {
    pow(BASE as int, e)
}

proof fn lemma_base_pow_step(e: nat)
    ensures
        base_pow(e) > 0,
        base_pow(e + 1) == base_pow(e) * (BASE as int),
{
    lemma_pow_positive(BASE as int, e);
    reveal(pow);
    assert(base_pow(e + 1) == (BASE as int) * base_pow(e));
    assert((BASE as int) * base_pow(e) == base_pow(e) * (BASE as int)) by (nonlinear_arith);
}

proof fn lemma_value_step(s: Seq<u32>, i: int)
    requires
        0 <= i < s.len(),
    ensures
        digits_value(s.skip(i)) == (s[i] as nat) + (BASE as nat) * digits_value(s.skip(i + 1)),
{
    assert(s.skip(i).drop_first() =~= s.skip(i + 1));
}

/// A digit pushed at the most significant end adds its value times the base power.
proof fn lemma_value_push(s: Seq<u32>, d: u32)
    ensures
        digits_value(s.push(d)) == digits_value(s) + base_pow(s.len()) * d,
    decreases s.len(),
{
    if s.len() == 0 {
        lemma_pow0(BASE as int);
        assert(s.push(d).drop_first() =~= Seq::<u32>::empty());
        assert(digits_value(Seq::<u32>::empty()) == 0);
        assert(base_pow(0) * d == d) by (nonlinear_arith)
            requires
                base_pow(0) == 1,
        ;
    } else {
        let t = s.drop_first();
        assert(s.push(d).drop_first() =~= t.push(d));
        lemma_value_push(t, d);
        lemma_base_pow_step(t.len());
        let p = base_pow(t.len());
        assert(base_pow(s.len()) == p * (BASE as int));
        assert(digits_value(s.push(d)) == s[0] + (BASE as int) * digits_value(t.push(d)));
        assert((BASE as int) * (digits_value(t) + p * d) == (BASE as int) * digits_value(t) + (p * (
        BASE as int)) * d) by (nonlinear_arith);
    }
}

/// Splitting a digit sequence splits its value.
proof fn lemma_value_split(s: Seq<u32>, i: int)
    requires
        0 <= i <= s.len(),
    ensures
        digits_value(s) == digits_value(s.take(i)) + base_pow(i as nat) * digits_value(s.skip(i)),
    decreases i,
{
    if i == 0 {
        lemma_pow0(BASE as int);
        assert(s.skip(0) =~= s);
        assert(s.take(0) =~= Seq::<u32>::empty());
        assert(base_pow(0) * digits_value(s) == digits_value(s)) by (nonlinear_arith)
            requires
                base_pow(0) == 1,
        ;
    } else {
        lemma_value_split(s, i - 1);
        lemma_value_step(s, i - 1);
        assert(s.take(i) =~= s.take(i - 1).push(s[i - 1]));
        lemma_value_push(s.take(i - 1), s[i - 1]);
        lemma_base_pow_step((i - 1) as nat);
        let p = base_pow((i - 1) as nat);
        let d = s[i - 1] as int;
        let y = digits_value(s.skip(i)) as int;
        assert(p * (d + (BASE as int) * y) == p * d + (p * (BASE as int)) * y) by (nonlinear_arith);
    }
}

/// `n` digits denote a number below the `n`-th power of the base.
proof fn lemma_value_bound(s: Seq<u32>)
    ensures
        digits_value(s) < base_pow(s.len()),
    decreases s.len(),
{
    if s.len() == 0 {
        lemma_pow0(BASE as int);
    } else {
        let t = s.drop_first();
        lemma_value_bound(t);
        lemma_base_pow_step(t.len());
        let p = base_pow(t.len());
        let v = digits_value(t) as int;
        assert((BASE as int) * v + s[0] < p * (BASE as int)) by (nonlinear_arith)
            requires
                v + 1 <= p,
                s[0] < BASE,
        ;
    }
}

/// A nonzero most significant digit gives a lower bound.
proof fn lemma_value_lower(s: Seq<u32>)
    requires
        s.len() > 0,
        s.last() != 0,
    ensures
        digits_value(s) >= base_pow((s.len() - 1) as nat),
{
    let t = s.drop_last();
    assert(s =~= t.push(s.last()));
    lemma_value_push(t, s.last());
    lemma_base_pow_step(t.len());
    let p = base_pow(t.len());
    let d = s.last() as int;
    assert(p * d >= p) by (nonlinear_arith)
        requires
            p > 0,
            d >= 1,
    ;
}

proof fn lemma_value_zeros(n: nat, s: Seq<u32>)
    ensures
        digits_value(Seq::new(n, |i: int| 0u32) + s) == base_pow(n) * digits_value(s),
    decreases n,
{
    let z = Seq::new(n, |i: int| 0u32);
    if n == 0 {
        lemma_pow0(BASE as int);
        assert(z + s =~= s);
        assert(base_pow(0) * digits_value(s) == digits_value(s)) by (nonlinear_arith)
            requires
                base_pow(0) == 1,
        ;
    } else {
        let n1 = (n - 1) as nat;
        lemma_value_zeros(n1, s);
        assert((z + s).drop_first() =~= Seq::new(n1, |i: int| 0u32) + s);
        lemma_base_pow_step(n1);
        let p = base_pow(n1);
        let v = digits_value(s) as int;
        assert((BASE as int) * (p * v) == (p * (BASE as int)) * v) by (nonlinear_arith);
    }
}

/// The digit base is the thirty-second power of two.
proof fn lemma_base_pow_is_pow2(n: nat)
    ensures
        base_pow(n) == pow2(32 * n),
    decreases n,
{
    lemma2_to64();
    if n == 0 {
        lemma_pow0(BASE as int);
    } else {
        let n1 = (n - 1) as nat;
        lemma_base_pow_is_pow2(n1);
        lemma_base_pow_step(n1);
        assert(pow2(32) == BASE);
        lemma_pow2_adds(32 * n1, 32);
        assert(32 * n1 + 32 == 32 * n);
    }
}

/// A number is zero exactly when all of its digits are.
proof fn lemma_value_is_zero(s: Seq<u32>)
    ensures
        digits_value(s) == 0 <==> forall|i: int| 0 <= i < s.len() ==> s[i] == 0,
    decreases s.len(),
{
    if s.len() > 0 {
        let t = s.drop_first();
        lemma_value_is_zero(t);
        if digits_value(s) == 0 {
            assert forall|i: int| 0 <= i < s.len() implies s[i] == 0 by {
                if i > 0 {
                    assert(t[i - 1] == s[i]);
                }
            }
        } else if forall|i: int| 0 <= i < s.len() ==> s[i] == 0 {
            assert forall|i: int| 0 <= i < t.len() implies t[i] == 0 by {
                assert(t[i] == s[i + 1]);
            }
        }
    }
}

/// Removes zero digits from the most significant end.
fn trim_digits(v: Vec<u32>) -> (r: Vec<u32>)
    ensures
        digits_value(r@) == digits_value(v@),
        r@.len() > 0 ==> r@.last() != 0,
{
    let mut r: Vec<u32> = v;
    while r.len() > 0 && r[r.len() - 1] == 0
        invariant
            digits_value(r@) == digits_value(v@),
        decreases r.len(),
    {
        proof {
            let t = r@.drop_last();
            assert(r@ =~= t.push(0u32));
            lemma_value_push(t, 0u32);
            assert(base_pow(t.len()) * 0 == 0) by (nonlinear_arith);
        }
        r.pop();
    }
    r
}

impl Nat {
    #[verifier::type_invariant]
    spec fn canonical(self) -> bool {
        self.digits@.len() > 0 ==> self.digits@.last() != 0
    }

    /// The number denoted by a vector of digits.
    fn of_digits(v: Vec<u32>) -> (r: Nat)
        ensures
            r@ == digits_value(v@),
    {
        Nat { digits: trim_digits(v) }
    }

    /// Zero.
    pub fn zero() -> (r: Nat)
        ensures
            r@ == 0,
    {
        Nat { digits: Vec::new() }
    }

    /// Whether the number is zero.
    pub fn is_zero(&self) -> (r: bool)
        ensures
            r == (self@ == 0),
    {
        proof {
            use_type_invariant(self);
            if self.digits@.len() > 0 {
                lemma_value_lower(self.digits@);
                lemma_pow_positive(BASE as int, (self.digits@.len() - 1) as nat);
            }
        }
        self.digits.len() == 0
    }

    /// A copy of the number.
    pub fn copy(&self) -> (r: Nat)
        ensures
            r@ == self@,
    {
        proof {
            use_type_invariant(self);
        }
        let d: Vec<u32> = self.digits.clone();
        assert(d@ =~= self.digits@);
        Nat { digits: d }
    }

    /// The natural number with the value of a machine word.
    pub fn from_u128(x: u128) -> (r: Nat)
        ensures
            r@ == x,
    {
        let mut v: Vec<u32> = Vec::new();
        let mut rest: u128 = x;
        proof {
            lemma_pow0(BASE as int);
            assert(base_pow(0) * x == x) by (nonlinear_arith)
                requires
                    base_pow(0) == 1,
            ;
        }
        while rest > 0
            invariant
                x == digits_value(v@) + base_pow(v@.len()) * rest,
            decreases rest,
        {
            let d: u32 = (rest % 0x1_0000_0000) as u32;
            let next: u128 = rest / 0x1_0000_0000;
            proof {
                let p = base_pow(v@.len());
                lemma_value_push(v@, d);
                lemma_base_pow_step(v@.len());
                assert(rest == d + (BASE as int) * next);
                assert(p * rest == p * d + (p * (BASE as int)) * next) by (nonlinear_arith)
                    requires
                        rest == d + (BASE as int) * next,
                ;
            }
            v.push(d);
            rest = next;
        }
        assert(base_pow(v@.len()) * 0 == 0) by (nonlinear_arith);
        Nat::of_digits(v)
    }

    /// The natural number with the value of a machine word.
    pub fn from_u64(x: u64) -> (r: Nat)
        ensures
            r@ == x,
    {
        Nat::from_u128(x as u128)
    }

    /// The value as a machine word, when it fits one.
    pub fn to_u128(&self) -> (r: Option<u128>)
        ensures
            r is Some <==> self@ < 0x1_0000_0000_0000_0000_0000_0000_0000_0000,
            r is Some ==> r->Some_0 == self@,
    {
        proof {
            use_type_invariant(self);
            lemma_pow0(BASE as int);
            lemma_base_pow_step(0);
            lemma_base_pow_step(1);
            lemma_base_pow_step(2);
            lemma_base_pow_step(3);
            assert(base_pow(4) == 0x1_0000_0000_0000_0000_0000_0000_0000_0000);
        }
        if self.digits.len() > 4 {
            proof {
                lemma_value_lower(self.digits@);
                vstd::arithmetic::power::lemma_pow_increases(
                    BASE as nat,
                    4,
                    (self.digits@.len() - 1) as nat,
                );
            }
            return None;
        }
        proof {
            lemma_value_bound(self.digits@);
            vstd::arithmetic::power::lemma_pow_increases(BASE as nat, self.digits@.len(), 4);
        }
        let mut i: usize = self.digits.len();
        let mut acc: u128 = 0;
        assert(self.digits@.skip(i as int) =~= Seq::<u32>::empty());
        while i > 0
            invariant
                i <= self.digits@.len() <= 4,
                acc == digits_value(self.digits@.skip(i as int)),
                digits_value(self.digits@) < base_pow(4),
                base_pow(4) == 0x1_0000_0000_0000_0000_0000_0000_0000_0000,
            decreases i,
        {
            proof {
                lemma_value_step(self.digits@, i - 1);
                lemma_value_split(self.digits@, i - 1);
                lemma_base_pow_step((i - 1) as nat);
                let p = base_pow((i - 1) as nat);
                let v = digits_value(self.digits@.skip(i - 1)) as int;
                assert(p * v >= v) by (nonlinear_arith)
                    requires
                        p >= 1,
                        v >= 0,
                ;
            }
            i = i - 1;
            acc = acc * 0x1_0000_0000 + self.digits[i] as u128;
        }
        assert(self.digits@.skip(0) =~= self.digits@);
        Some(acc)
    }

    /// The digit at a place, zero beyond the most significant one.
    fn digit(&self, i: usize) -> (r: u32)
        ensures
            r == self.digit_at(i as int),
    {
        if i < self.digits.len() {
            self.digits[i]
        } else {
            0
        }
    }

    spec fn digit_at(&self, i: int) -> u32 {
        if 0 <= i < self.digits@.len() {
            self.digits@[i]
        } else {
            0
        }
    }

    /// What the digits from a place on denote.
    spec fn from_digit(&self, i: int) -> nat {
        if i < self.digits@.len() {
            digits_value(self.digits@.skip(i))
        } else {
            0
        }
    }

    proof fn lemma_from_digit(&self, i: int)
        requires
            0 <= i,
        ensures
            self.from_digit(i) == self.digit_at(i) + (BASE as int) * self.from_digit(i + 1),
            self.from_digit(0) == self@,
    {
        assert(self.digits@.skip(0) =~= self.digits@);
        if i < self.digits@.len() {
            lemma_value_step(self.digits@, i);
            if i + 1 == self.digits@.len() {
                assert(self.digits@.skip(i + 1) =~= Seq::<u32>::empty());
            }
        }
    }

    /// The sum of two numbers.
    pub fn plus(&self, other: &Nat) -> (r: Nat)
        ensures
            r@ == self@ + other@,
    {
        let n: usize = if self.digits.len() < other.digits.len() {
            other.digits.len()
        } else {
            self.digits.len()
        };
        let mut v: Vec<u32> = Vec::new();
        let mut carry: u64 = 0;
        let mut i: usize = 0;
        proof {
            self.lemma_from_digit(0);
            other.lemma_from_digit(0);
            lemma_pow0(BASE as int);
            assert(base_pow(0) * (self@ + other@ + 0) == self@ + other@) by (nonlinear_arith)
                requires
                    base_pow(0) == 1,
            ;
        }
        while i < n
            invariant
                i <= n,
                v@.len() == i,
                carry <= 1,
                self.digits@.len() <= n,
                other.digits@.len() <= n,
                self@ + other@ == digits_value(v@) + base_pow(i as nat) * (self.from_digit(i as int)
                    + other.from_digit(i as int) + carry),
            decreases n - i,
        {
            let t: u64 = self.digit(i) as u64 + other.digit(i) as u64 + carry;
            let d: u32 = (t % 0x1_0000_0000) as u32;
            let c: u64 = t / 0x1_0000_0000;
            proof {
                self.lemma_from_digit(i as int);
                other.lemma_from_digit(i as int);
                lemma_value_push(v@, d);
                lemma_base_pow_step(i as nat);
                let p = base_pow(i as nat);
                let y = self.from_digit(i + 1) + other.from_digit(i + 1) + c;
                assert(self.from_digit(i as int) + other.from_digit(i as int) + carry == d + (
                BASE as int) * y);
                assert(p * (d + (BASE as int) * y) == p * d + (p * (BASE as int)) * y)
                    by (nonlinear_arith);
            }
            v.push(d);
            carry = c;
            i = i + 1;
        }
        proof {
            lemma_value_push(v@, carry as u32);
        }
        v.push(carry as u32);
        Nat::of_digits(v)
    }

    /// The difference of two numbers, the second being no larger.
    pub fn minus(&self, other: &Nat) -> (r: Nat)
        requires
            other@ <= self@,
        ensures
            r@ == self@ - other@,
    {
        let n: usize = if self.digits.len() < other.digits.len() {
            other.digits.len()
        } else {
            self.digits.len()
        };
        let mut v: Vec<u32> = Vec::new();
        let mut borrow: u64 = 0;
        let mut i: usize = 0;
        proof {
            self.lemma_from_digit(0);
            other.lemma_from_digit(0);
            lemma_pow0(BASE as int);
            assert(base_pow(0) * (self@ - other@ - 0) == self@ - other@) by (nonlinear_arith)
                requires
                    base_pow(0) == 1,
            ;
        }
        while i < n
            invariant
                i <= n,
                v@.len() == i,
                borrow <= 1,
                self.digits@.len() <= n,
                other.digits@.len() <= n,
                self@ - other@ == digits_value(v@) + base_pow(i as nat) * (self.from_digit(i as int)
                    - other.from_digit(i as int) - borrow),
            decreases n - i,
        {
            let t: u64 = 0x1_0000_0000 + self.digit(i) as u64 - other.digit(i) as u64 - borrow;
            let d: u32 = (t % 0x1_0000_0000) as u32;
            let c: u64 = 1 - t / 0x1_0000_0000;
            proof {
                self.lemma_from_digit(i as int);
                other.lemma_from_digit(i as int);
                lemma_value_push(v@, d);
                lemma_base_pow_step(i as nat);
                let p = base_pow(i as nat);
                let y = self.from_digit(i + 1) - other.from_digit(i + 1) - c;
                assert(self.from_digit(i as int) - other.from_digit(i as int) - borrow == d + (
                BASE as int) * y);
                assert(p * (d + (BASE as int) * y) == p * d + (p * (BASE as int)) * y)
                    by (nonlinear_arith);
            }
            v.push(d);
            borrow = c;
            i = i + 1;
        }
        proof {
            lemma_value_bound(v@);
            lemma_base_pow_step(n as nat);
            let p = base_pow(n as nat);
            assert(borrow == 0) by {
                if borrow == 1 {
                    assert(p * (0 - 0 - 1) == -p) by (nonlinear_arith);
                }
            }
            assert(p * (0 - 0 - 0) == 0) by (nonlinear_arith);
        }
        Nat::of_digits(v)
    }

    /// The product of a number and one digit.
    fn times_digit(&self, m: u32) -> (r: Nat)
        ensures
            r@ == self@ * m,
    {
        let n: usize = self.digits.len();
        let mut v: Vec<u32> = Vec::new();
        let mut carry: u64 = 0;
        let mut i: usize = 0;
        proof {
            self.lemma_from_digit(0);
            lemma_pow0(BASE as int);
            assert(base_pow(0) * (self@ * m + 0) == self@ * m) by (nonlinear_arith)
                requires
                    base_pow(0) == 1,
            ;
        }
        while i < n
            invariant
                i <= n,
                v@.len() == i,
                carry < BASE,
                self.digits@.len() == n,
                self@ * m == digits_value(v@) + base_pow(i as nat) * (self.from_digit(i as int) * m
                    + carry),
            decreases n - i,
        {
            let x: u64 = self.digits[i] as u64;
            assert(x * m + carry <= 0xffff_ffff * 0xffff_ffff + 0xffff_ffff) by (nonlinear_arith)
                requires
                    x <= 0xffff_ffff,
                    m <= 0xffff_ffff,
                    carry <= 0xffff_ffff,
            ;
            assert(x * m <= 0xffff_ffff * 0xffff_ffff) by (nonlinear_arith)
                requires
                    x <= 0xffff_ffff,
                    m <= 0xffff_ffff,
            ;
            let t: u64 = x * (m as u64) + carry;
            let d: u32 = (t % 0x1_0000_0000) as u32;
            let c: u64 = t / 0x1_0000_0000;
            proof {
                self.lemma_from_digit(i as int);
                lemma_value_push(v@, d);
                lemma_base_pow_step(i as nat);
                let p = base_pow(i as nat);
                let f = self.from_digit(i + 1) as int;
                let y = f * m + c;
                assert((x + (BASE as int) * f) * m + carry == d + (BASE as int) * (f * m + c))
                    by (nonlinear_arith)
                    requires
                        x * m + carry == d + (BASE as int) * c,
                ;
                assert(self.from_digit(i as int) * m + carry == d + (BASE as int) * y);
                assert(p * (d + (BASE as int) * y) == p * d + (p * (BASE as int)) * y)
                    by (nonlinear_arith);
            }
            v.push(d);
            carry = c;
            i = i + 1;
        }
        proof {
            lemma_value_push(v@, carry as u32);
            assert(self.from_digit(n as int) * m == 0) by (nonlinear_arith)
                requires
                    self.from_digit(n as int) == 0,
            ;
        }
        v.push(carry as u32);
        Nat::of_digits(v)
    }

    /// The number with `n` zero digits put below its least significant one.
    fn shift_digits(&self, n: u128) -> (r: Nat)
        ensures
            r@ == base_pow(n as nat) * self@,
    {
        let mut v: Vec<u32> = Vec::new();
        let mut k: u128 = 0;
        while k < n
            invariant
                k <= n,
                v@ =~= Seq::new(k as nat, |i: int| 0u32),
            decreases n - k,
        {
            v.push(0);
            k = k + 1;
        }
        let ghost z = v@;
        let mut i: usize = 0;
        while i < self.digits.len()
            invariant
                i <= self.digits@.len(),
                v@ =~= z + self.digits@.take(i as int),
            decreases self.digits.len() - i,
        {
            v.push(self.digits[i]);
            i = i + 1;
        }
        proof {
            assert(self.digits@.take(i as int) =~= self.digits@);
            lemma_value_zeros(n as nat, self.digits@);
        }
        Nat::of_digits(v)
    }

    /// The product of two numbers.
    pub fn times(&self, other: &Nat) -> (r: Nat)
        ensures
            r@ == self@ * other@,
    {
        let mut i: usize = other.digits.len();
        let mut acc: Nat = Nat::zero();
        assert(self@ * 0 == 0) by (nonlinear_arith);
        while i > 0
            invariant
                i <= other.digits@.len(),
                acc@ == self@ * other.from_digit(i as int),
            decreases i,
        {
            i = i - 1;
            let hi: Nat = acc.shift_digits(1);
            let lo: Nat = self.times_digit(other.digits[i]);
            proof {
                other.lemma_from_digit(i as int);
                lemma_pow0(BASE as int);
                lemma_base_pow_step(0);
                let f = other.from_digit(i + 1) as int;
                let d = other.digits@[i as int] as int;
                let a = self@ as int;
                assert((BASE as int) * (a * f) + a * d == a * (d + (BASE as int) * f))
                    by (nonlinear_arith);
            }
            acc = hi.plus(&lo);
        }
        proof {
            other.lemma_from_digit(0);
        }
        acc
    }

    /// Whether this number is smaller than the other.
    pub fn less(&self, other: &Nat) -> (r: bool)
        ensures
            r == (self@ < other@),
    {
        proof {
            use_type_invariant(self);
            use_type_invariant(other);
            lemma_value_bound(self.digits@);
            lemma_value_bound(other.digits@);
        }
        if self.digits.len() != other.digits.len() {
            proof {
                let m = self.digits@.len();
                let n = other.digits@.len();
                if m < n {
                    lemma_value_lower(other.digits@);
                    vstd::arithmetic::power::lemma_pow_increases(
                        BASE as nat,
                        m,
                        (n - 1) as nat,
                    );
                } else {
                    lemma_value_lower(self.digits@);
                    vstd::arithmetic::power::lemma_pow_increases(
                        BASE as nat,
                        n,
                        (m - 1) as nat,
                    );
                }
            }
            return self.digits.len() < other.digits.len();
        }
        let mut i: usize = self.digits.len();
        while i > 0
            invariant
                i <= self.digits@.len(),
                self.digits@.len() == other.digits@.len(),
                self.from_digit(i as int) == other.from_digit(i as int),
            decreases i,
        {
            i = i - 1;
            proof {
                self.lemma_from_digit(i as int);
                other.lemma_from_digit(i as int);
            }
            if self.digits[i] != other.digits[i] {
                proof {
                    lemma_value_split(self.digits@, i as int);
                    lemma_value_split(other.digits@, i as int);
                    lemma_value_bound(self.digits@.take(i as int));
                    lemma_value_bound(other.digits@.take(i as int));
                    let p = base_pow(i as nat);
                    let a = self.from_digit(i as int) as int;
                    let b = other.from_digit(i as int) as int;
                    if self.digits@[i as int] < other.digits@[i as int] {
                        assert(p * b >= p * a + p) by (nonlinear_arith)
                            requires
                                b >= a + 1,
                                p > 0,
                        ;
                    } else {
                        assert(p * a >= p * b + p) by (nonlinear_arith)
                            requires
                                a >= b + 1,
                                p > 0,
                        ;
                    }
                }
                return self.digits[i] < other.digits[i];
            }
        }
        proof {
            self.lemma_from_digit(0);
            other.lemma_from_digit(0);
        }
        false
    }

    /// Whether the two numbers are equal.
    pub fn same(&self, other: &Nat) -> (r: bool)
        ensures
            r == (self@ == other@),
    {
        !self.less(other) && !other.less(self)
    }

    /// The larger of two numbers.
    pub fn larger(&self, other: &Nat) -> (r: Nat)
        ensures
            r@ == (if self@ < other@ {
                other@
            } else {
                self@
            }),
    {
        if self.less(other) {
            other.copy()
        } else {
            self.copy()
        }
    }

    /// Quotient and remainder by one nonzero digit.
    pub(crate) fn div_rem_digit(&self, d: u32) -> (r: (Nat, u32))
        requires
            d > 0,
        ensures
            self@ == r.0@ * d + r.1,
            r.1 < d,
    {
        let mut q: Vec<u32> = self.digits.clone();
        assert(q@ =~= self.digits@);
        let mut rem: u64 = 0;
        let mut i: usize = self.digits.len();
        proof {
            assert(q@.skip(i as int) =~= Seq::<u32>::empty());
            assert(digits_value(Seq::<u32>::empty()) == 0);
            assert(0 * d == 0) by (nonlinear_arith);
        }
        while i > 0
            invariant
                d > 0,
                i <= self.digits@.len(),
                q@.len() == self.digits@.len(),
                rem < d,
                self.from_digit(i as int) == digits_value(q@.skip(i as int)) * d + rem,
            decreases i,
        {
            i = i - 1;
            let cur: u64 = rem * 0x1_0000_0000 + self.digits[i] as u64;
            let t: u64 = cur / (d as u64);
            let ghost prev = q@;
            proof {
                self.lemma_from_digit(i as int);
                assert(t < BASE) by (nonlinear_arith)
                    requires
                        t == cur / (d as u64),
                        cur < d * BASE,
                        d > 0,
                ;
                assert(cur < d * BASE) by (nonlinear_arith)
                    requires
                        cur < (rem + 1) * BASE,
                        rem + 1 <= d,
                ;
            }
            let next: u64 = cur % (d as u64);
            q.set(i, t as u32);
            proof {
                lemma_value_step(q@, i as int);
                assert(q@.skip(i + 1) =~= prev.skip(i + 1));
                let h = digits_value(q@.skip(i + 1)) as int;
                let b = BASE as int;
                assert(cur == t * d + next) by (nonlinear_arith)
                    requires
                        t == cur / (d as u64),
                        next == cur % (d as u64),
                        d > 0,
                ;
                assert((t + b * h) * d + next == b * (h * d) + (t * d + next)) by (nonlinear_arith);
                assert(b * (h * d + rem) == b * (h * d) + b * rem) by (nonlinear_arith);
            }
            rem = next;
        }
        proof {
            self.lemma_from_digit(0);
            assert(q@.skip(0) =~= q@);
        }
        (Nat::of_digits(q), rem as u32)
    }

    /// Quotient and remainder.
    pub fn div_rem(&self, d: &Nat) -> (r: (Nat, Nat))
        requires
            d@ > 0,
        ensures
            r.0@ == self@ / d@,
            r.1@ == self@ % d@,
            self@ == r.0@ * d@ + r.1@,
            r.1@ < d@,
    {
        // table[j] is d times the j-th power of two.
        let mut table: Vec<Nat> = Vec::new();
        table.push(d.copy());
        proof {
            lemma2_to64();
            assert(d@ * pow2(0) == d@) by (nonlinear_arith)
                requires
                    pow2(0) == 1,
            ;
        }
        let mut k: usize = 1;
        while k < 32
            invariant
                1 <= k <= 32,
                table@.len() == k,
                forall|j: int| 0 <= j < k ==> (#[trigger] table@[j])@ == d@ * pow2(j as nat),
            decreases 32 - k,
        {
            let twice: Nat = table[k - 1].plus(&table[k - 1]);
            proof {
                lemma_pow2_unfold(k as nat);
                let a = pow2((k - 1) as nat);
                let b = d@;
                assert(b * a + b * a == b * (2 * a)) by (nonlinear_arith);
            }
            table.push(twice);
            k = k + 1;
        }
        let mut q: Nat = Nat::zero();
        let mut rem: Nat = Nat::zero();
        let mut i: usize = self.digits.len();
        assert(0 * d@ == 0) by (nonlinear_arith);
        while i > 0
            invariant
                d@ > 0,
                i <= self.digits@.len(),
                table@.len() == 32,
                forall|j: int| 0 <= j < 32 ==> (#[trigger] table@[j])@ == d@ * pow2(j as nat),
                self.from_digit(i as int) == q@ * d@ + rem@,
                rem@ < d@,
            decreases i,
        {
            i = i - 1;
            let ghost before = rem@;
            let low: Nat = Nat::from_u64(self.digits[i] as u64);
            rem = rem.shift_digits(1).plus(&low);
            let ghost start = rem@;
            let mut digit: u64 = 0;
            let mut j: usize = 32;
            let mut step: u64 = 0x1_0000_0000;
            proof {
                lemma2_to64();
                lemma_pow0(BASE as int);
                lemma_base_pow_step(0);
                self.lemma_from_digit(i as int);
                assert(start < d@ * BASE) by (nonlinear_arith)
                    requires
                        start == BASE * before + self.digits@[i as int],
                        before + 1 <= d@,
                        self.digits@[i as int] < BASE,
                ;
                assert(0 * d@ == 0) by (nonlinear_arith);
            }
            while j > 0
                invariant
                    d@ > 0,
                    j <= 32,
                    step == pow2(j as nat),
                    step <= BASE,
                    table@.len() == 32,
                    forall|j: int| 0 <= j < 32 ==> (#[trigger] table@[j])@ == d@ * pow2(j as nat),
                    start == digit * d@ + rem@,
                    rem@ < d@ * step,
                    digit + step <= BASE,
                decreases j,
            {
                j = j - 1;
                proof {
                    lemma_pow2_unfold((j + 1) as nat);
                }
                step = step / 2;
                if !rem.less(&table[j]) {
                    proof {
                        let b = d@ as int;
                        let g = digit as int;
                        let t = step as int;
                        assert(g * b + b * t == (g + t) * b) by (nonlinear_arith);
                        assert(b * (2 * t) == b * t + b * t) by (nonlinear_arith);
                    }
                    rem = rem.minus(&table[j]);
                    digit = digit + step;
                }
            }
            proof {
                lemma2_to64();
                assert(d@ * 1 == d@) by (nonlinear_arith);
                let b = BASE as int;
                let x = q@ as int;
                let y = d@ as int;
                let g = digit as int;
                assert((b * x + g) * y + rem@ == b * (x * y) + (g * y + rem@)) by (nonlinear_arith);
                assert(b * (x * y + before) == b * (x * y) + b * before) by (nonlinear_arith);
            }
            let dig: Nat = Nat::from_u64(digit);
            q = q.shift_digits(1).plus(&dig);
        }
        proof {
            self.lemma_from_digit(0);
            lemma_fundamental_div_mod_converse(self@ as int, d@ as int, q@ as int, rem@ as int);
        }
        (q, rem)
    }

    /// The quotient by a power of two, and whether the division leaves no remainder.
    pub fn shift_right(&self, n: u128) -> (r: (Nat, bool))
        ensures
            r.0@ == self@ / pow2(n as nat),
            r.1 == (self@ % pow2(n as nat) == 0),
    {
        let k: u128 = n / 32;
        let s: u32 = (n % 32) as u32;
        let len: u128 = self.digits.len() as u128;
        proof {
            lemma_pow2_pos(n as nat);
            lemma_pow2_adds(32 * (k as nat), s as nat);
            lemma_base_pow_is_pow2(k as nat);
            lemma2_to64();
            lemma_value_bound(self.digits@);
        }
        if k >= len {
            proof {
                vstd::arithmetic::power::lemma_pow_increases(BASE as nat, len as nat, k as nat);
                lemma_pow2_pos(s as nat);
                let a = base_pow(k as nat);
                let b = pow2(s as nat) as int;
                assert(a * b >= a) by (nonlinear_arith)
                    requires
                        a > 0,
                        b >= 1,
                ;
                lemma_pow_positive(BASE as int, k as nat);
                lemma_fundamental_div_mod_converse(
                    self@ as int,
                    pow2(n as nat) as int,
                    0,
                    self@ as int,
                );
            }
            return (Nat::zero(), self.is_zero());
        }
        let cut: usize = k as usize;
        let mut low_zero: bool = true;
        let mut i: usize = 0;
        while i < cut
            invariant
                i <= cut <= self.digits@.len(),
                low_zero == (forall|j: int| 0 <= j < i ==> self.digits@[j] == 0),
            decreases cut - i,
        {
            if self.digits[i] != 0 {
                low_zero = false;
            }
            i = i + 1;
        }
        let mut high: Vec<u32> = Vec::new();
        while i < self.digits.len()
            invariant
                cut <= i <= self.digits@.len(),
                high@ =~= self.digits@.subrange(cut as int, i as int),
            decreases self.digits.len() - i,
        {
            high.push(self.digits[i]);
            i = i + 1;
        }
        let mut unit: u32 = 1;
        let mut j: u32 = 0;
        while j < s
            invariant
                j <= s < 32,
                unit == pow2(j as nat),
                unit <= 0x8000_0000,
                j < 31 ==> unit <= 0x4000_0000,
            decreases s - j,
        {
            proof {
                lemma_pow2_unfold((j + 1) as nat);
                lemma2_to64();
                if j + 1 < 31 {
                    if j + 1 < 30 {
                        vstd::arithmetic::power2::lemma_pow2_strictly_increases((j + 1) as nat, 30);
                    }
                }
            }
            unit = unit * 2;
            j = j + 1;
        }
        let ghost hi = digits_value(high@);
        let ghost lo = digits_value(self.digits@.take(cut as int));
        proof {
            lemma_pow2_pos(s as nat);
        }
        let top: Nat = Nat::of_digits(high);
        let (q, rest): (Nat, u32) = top.div_rem_digit(unit);
        proof {
            assert(self.digits@.skip(cut as int) =~= self.digits@.subrange(
                cut as int,
                self.digits@.len() as int,
            ));
            lemma_value_split(self.digits@, cut as int);
            lemma_value_bound(self.digits@.take(cut as int));
            lemma_value_is_zero(self.digits@.take(cut as int));
            assert(low_zero == (lo == 0)) by {
                assert forall|j: int| 0 <= j < cut implies self.digits@.take(cut as int)[j]
                    == self.digits@[j] by {}
                if low_zero {
                    assert(forall|j: int|
                        0 <= j < cut ==> self.digits@.take(cut as int)[j] == 0);
                } else {
                    let w = choose|j: int| 0 <= j < cut && self.digits@[j] != 0;
                    assert(self.digits@.take(cut as int)[w] != 0);
                }
            }
            let a = base_pow(k as nat);
            let b = pow2(s as nat) as int;
            let r = rest as int;
            let y = q@ as int;
            let remainder = a * r + lo;
            assert(a * (y * b + r) + lo == y * (a * b) + (a * r + lo)) by (nonlinear_arith);
            assert(0 <= a * r + lo < a * b) by (nonlinear_arith)
                requires
                    0 <= lo < a,
                    0 <= r,
                    r + 1 <= b,
            ;
            assert((a * r + lo == 0) == (r == 0 && lo == 0)) by (nonlinear_arith)
                requires
                    0 <= lo < a,
                    0 <= r,
            ;
            lemma_fundamental_div_mod_converse(
                self@ as int,
                pow2(n as nat) as int,
                y,
                remainder,
            );
        }
        (q, low_zero && rest == 0)
    }

    /// The number multiplied by a power of two.
    pub fn shift_left(&self, n: u128) -> (r: Nat)
        ensures
            r@ == self@ * pow2(n as nat),
    {
        let k: u128 = n / 32;
        let s: u128 = n % 32;
        let mut r: Nat = self.shift_digits(k);
        proof {
            lemma_base_pow_is_pow2(k as nat);
            lemma_pow2_adds(32 * (k as nat), s as nat);
            let a = base_pow(k as nat);
            let v = self@ as int;
            lemma2_to64();
            assert(a * v == v * a * pow2(0)) by (nonlinear_arith)
                requires
                    pow2(0) == 1,
            ;
        }
        let mut j: u128 = 0;
        while j < s
            invariant
                j <= s,
                r@ == self@ * base_pow(k as nat) * pow2(j as nat),
            decreases s - j,
        {
            proof {
                lemma_pow2_unfold((j + 1) as nat);
                let a = self@ * base_pow(k as nat);
                let b = pow2(j as nat) as int;
                assert(a * b * 2 == a * (2 * b)) by (nonlinear_arith);
            }
            r = r.times_digit(2);
            j = j + 1;
        }
        proof {
            let a = base_pow(k as nat);
            let b = pow2(s as nat) as int;
            let v = self@ as int;
            assert(v * a * b == v * (a * b)) by (nonlinear_arith);
        }
        r
    }

    /// The position of the most significant bit of a positive number.
    pub fn top_bit(&self) -> (r: u128)
        requires
            self@ > 0,
        ensures
            pow2(r as nat) <= self@ < pow2(r as nat + 1),
            r < 0x20_0000_0000_0000_0000,
    {
        proof {
            use_type_invariant(self);
            lemma2_to64();
        }
        let n: usize = self.digits.len();
        let d: u32 = self.digits[n - 1];
        let mut t: u128 = 0;
        let mut unit: u64 = 1;
        while unit * 2 <= d as u64
            invariant
                d > 0,
                t < 32,
                unit == pow2(t as nat),
                1 <= unit <= d,
            decreases d - unit,
        {
            proof {
                lemma_pow2_unfold((t + 1) as nat);
                if t == 31 {
                    lemma2_to64();
                }
            }
            unit = unit * 2;
            t = t + 1;
        }
        let k: u128 = (n - 1) as u128;
        proof {
            let kk = k as nat;
            lemma_value_split(self.digits@, kk as int);
            lemma_value_bound(self.digits@.take(kk as int));
            lemma_value_step(self.digits@, kk as int);
            assert(self.digits@.skip(kk as int + 1) =~= Seq::<u32>::empty());
            lemma_base_pow_is_pow2(kk);
            lemma_pow2_adds(32 * kk, t as nat);
            lemma_pow2_adds(32 * kk, (t + 1) as nat);
            lemma_pow2_unfold((t + 1) as nat);
            let p = base_pow(kk);
            let u = unit as int;
            let e = d as int;
            let lo = digits_value(self.digits@.take(kk as int)) as int;
            assert(p * u <= lo + p * e < p * (2 * u)) by (nonlinear_arith)
                requires
                    0 <= lo < p,
                    u <= e,
                    e + 1 <= 2 * u,
            ;
        }
        32 * k + t
    }
}

} // verus!
