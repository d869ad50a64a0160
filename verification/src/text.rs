//! Characters: splitting and trimming input, and writing numbers.

use crate::natural::Nat;
use vstd::arithmetic::power::{lemma_pow0, lemma_pow_positive, pow};
use vstd::prelude::*;

verus! {

/// `String::push` appends one character at the end of the string.
pub assume_specification[ String::push ](s: &mut String, c: char)
    ensures
        final(s)@ == old(s)@.push(c),
;

/// The characters of a string.
pub fn to_chars(s: &str) -> (r: Vec<char>)
    ensures
        r@ == s@,
{
    let mut r: Vec<char> = Vec::new();
    for c in it: s.chars()
        invariant
            r@ == s@.take(it.index() as int),
            it.seq() == s@,
    {
        proof {
            assert(s@.take(it.index() + 1) =~= s@.take(it.index() as int).push(
                s@[it.index() as int],
            ));
        }
        r.push(c);
    }
    assert(s@.take(s@.len() as int) =~= s@);
    r
}

/// The string with the given characters.
pub fn from_chars(v: &Vec<char>) -> (r: String)
    ensures
        r@ == v@,
{
    let mut r: String = String::new();
    let mut i: usize = 0;
    while i < v.len()
        invariant
            i <= v@.len(),
            r@ =~= v@.take(i as int),
        decreases v.len() - i,
    {
        r.push(v[i]);
        i = i + 1;
    }
    assert(v@.take(i as int) =~= v@);
    r
}

/// Whether two strings hold the same characters.
pub fn same_text(a: &str, b: &str) -> (r: bool)
    ensures
        r == (a@ == b@),
{
    let x: Vec<char> = to_chars(a);
    let y: Vec<char> = to_chars(b);
    if x.len() != y.len() {
        return false;
    }
    let mut i: usize = 0;
    while i < x.len()
        invariant
            x@ == a@,
            y@ == b@,
            x@.len() == y@.len(),
            i <= x@.len(),
            forall|j: int| 0 <= j < i ==> x@[j] == y@[j],
        decreases x.len() - i,
    {
        if x[i] != y[i] {
            return false;
        }
        i = i + 1;
    }
    assert(x@ =~= y@);
    true
}

/// Whether a character is white space in Unicode.
pub open spec fn is_space(c: char) -> bool {
    let u = c as u32;
    ||| 0x09 <= u <= 0x0d
    ||| u == 0x20
    ||| u == 0x85
    ||| u == 0xa0
    ||| u == 0x1680
    ||| 0x2000 <= u <= 0x200a
    ||| u == 0x2028
    ||| u == 0x2029
    ||| u == 0x202f
    ||| u == 0x205f
    ||| u == 0x3000
}

fn space(c: char) -> (r: bool)
    ensures
        r == is_space(c),
{
    let u: u32 = c as u32;
    (0x09 <= u && u <= 0x0d) || u == 0x20 || u == 0x85 || u == 0xa0 || u == 0x1680 || (0x2000 <= u
        && u <= 0x200a) || u == 0x2028 || u == 0x2029 || u == 0x202f || u == 0x205f || u == 0x3000
}

/// The characters without leading white space.
pub open spec fn trim_start(s: Seq<char>) -> Seq<char>
    decreases s.len(),
{
    if s.len() > 0 && is_space(s[0]) {
        trim_start(s.drop_first())
    } else {
        s
    }
}

/// The characters without trailing white space.
pub open spec fn trim_end(s: Seq<char>) -> Seq<char>
    decreases s.len(),
{
    if s.len() > 0 && is_space(s.last()) {
        trim_end(s.drop_last())
    } else {
        s
    }
}

/// The characters without white space at either end.
pub open spec fn trimmed(s: Seq<char>) -> Seq<char> {
    trim_end(trim_start(s))
}

/// Removes white space at either end.
pub fn trim(v: &Vec<char>) -> (r: Vec<char>)
    ensures
        r@ == trimmed(v@),
{
    let mut i: usize = 0;
    assert(v@.skip(0) =~= v@);
    while i < v.len() && space(v[i])
        invariant
            i <= v@.len(),
            trim_start(v@) == trim_start(v@.skip(i as int)),
        decreases v.len() - i,
    {
        assert(v@.skip(i as int).drop_first() =~= v@.skip(i + 1));
        i = i + 1;
    }
    let ghost s = v@.skip(i as int);
    proof {
        if i < v@.len() {
            assert(s[0] == v@[i as int]);
        }
        assert(trim_start(v@) == s);
    }
    let mut r: Vec<char> = Vec::new();
    let mut j: usize = i;
    while j < v.len()
        invariant
            i <= j <= v@.len(),
            s == v@.skip(i as int),
            r@ =~= s.take(j - i),
        decreases v.len() - j,
    {
        r.push(v[j]);
        j = j + 1;
    }
    assert(r@ =~= s);
    while r.len() > 0 && space(r[r.len() - 1])
        invariant
            trim_end(r@) == trim_end(s),
        decreases r.len(),
    {
        r.pop();
    }
    r
}

/// The pieces between occurrences of a separator.
pub open spec fn split_at_char(s: Seq<char>, sep: char) -> Seq<Seq<char>>
    decreases s.len(),
{
    if s.len() == 0 {
        seq![Seq::empty()]
    } else {
        let p = split_at_char(s.drop_last(), sep);
        if s.last() == sep {
            p.push(Seq::empty())
        } else {
            p.update(p.len() - 1, p.last().push(s.last()))
        }
    }
}

/// The characters of each of several vectors.
pub open spec fn pieces_of(v: Seq<Vec<char>>) -> Seq<Seq<char>> {
    v.map_values(|x: Vec<char>| x@)
}

/// Splits at every occurrence of a separator.
pub fn split(v: &Vec<char>, sep: char) -> (r: Vec<Vec<char>>)
    ensures
        pieces_of(r@) == split_at_char(v@, sep),
        r@.len() >= 1,
{
    let mut r: Vec<Vec<char>> = Vec::new();
    let mut cur: Vec<char> = Vec::new();
    let mut i: usize = 0;
    proof {
        assert(v@.take(0) =~= Seq::empty());
        assert(pieces_of(r@).push(cur@) =~= seq![Seq::<char>::empty()]);
    }
    while i < v.len()
        invariant
            i <= v@.len(),
            pieces_of(r@).push(cur@) == split_at_char(v@.take(i as int), sep),
        decreases v.len() - i,
    {
        let ghost before = pieces_of(r@).push(cur@);
        let ghost done = pieces_of(r@);
        let ghost piece = cur@;
        proof {
            assert(v@.take(i + 1).drop_last() =~= v@.take(i as int));
        }
        if v[i] == sep {
            r.push(cur);
            cur = Vec::new();
            proof {
                assert(pieces_of(r@) =~= done.push(piece));
                assert(pieces_of(r@).push(cur@) =~= before.push(Seq::empty()));
            }
        } else {
            cur.push(v[i]);
            proof {
                assert(pieces_of(r@).push(cur@) =~= before.update(
                    before.len() - 1,
                    before.last().push(v@[i as int]),
                ));
            }
        }
        i = i + 1;
    }
    let ghost done = pieces_of(r@);
    let ghost piece = cur@;
    r.push(cur);
    proof {
        assert(pieces_of(r@) =~= done.push(piece));
        assert(v@.take(i as int) =~= v@);
    }
    r
}

/// Whether a character is a decimal digit.
pub open spec fn is_digit(c: char) -> bool {
    '0' <= c <= '9'
}

/// The value of a decimal digit.
pub open spec fn digit_value(c: char) -> nat {
    if is_digit(c) {
        (c as u32 - '0' as u32) as nat
    } else {
        0
    }
}

/// The number that decimal digits denote.
pub open spec fn decimal_value(s: Seq<char>) -> nat
    decreases s.len(),
{
    if s.len() == 0 {
        0
    } else {
        10 * decimal_value(s.drop_last()) + digit_value(s.last())
    }
}

/// The digits of a numeral: what follows an optional plus sign.
pub open spec fn numeral_digits(s: Seq<char>) -> Seq<char> {
    if s.len() > 0 && s[0] == '+' {
        s.drop_first()
    } else {
        s
    }
}

/// Whether characters are a numeral: an optional plus sign and one or more digits.
pub open spec fn is_numeral(s: Seq<char>) -> bool {
    let d = numeral_digits(s);
    d.len() > 0 && forall|i: int| 0 <= i < d.len() ==> is_digit(#[trigger] d[i])
}

/// The number that a numeral no larger than `max` denotes.
pub open spec fn number_of(s: Seq<char>, max: nat) -> Option<nat> {
    if is_numeral(s) && decimal_value(numeral_digits(s)) <= max {
        Some(decimal_value(numeral_digits(s)))
    } else {
        None
    }
}

proof fn lemma_decimal_prefix(s: Seq<char>, i: int)
    requires
        0 <= i <= s.len(),
    ensures
        decimal_value(s.take(i)) <= decimal_value(s),
    decreases s.len(),
{
    if i < s.len() {
        assert(s.drop_last().take(i) =~= s.take(i));
        lemma_decimal_prefix(s.drop_last(), i);
    } else {
        assert(s.take(i) =~= s);
    }
}

/// Reads a numeral no larger than `max`.
pub fn read_number(v: &Vec<char>, max: u64) -> (r: Option<u64>)
    ensures
        r is Some <==> number_of(v@, max as nat) is Some,
        r is Some ==> r->Some_0 == number_of(v@, max as nat)->Some_0,
{
    let start: usize = if v.len() > 0 && v[0] == '+' {
        1
    } else {
        0
    };
    let ghost d = numeral_digits(v@);
    assert(d =~= v@.skip(start as int));
    if start == v.len() {
        return None;
    }
    let mut i: usize = start;
    let mut acc: u128 = 0;
    assert(d.take(0) =~= Seq::empty());
    while i < v.len()
        invariant
            start <= i <= v@.len(),
            d == v@.skip(start as int),
            d == numeral_digits(v@),
            acc == decimal_value(d.take(i - start)),
            acc <= max,
            forall|j: int| 0 <= j < i - start ==> is_digit(#[trigger] d[j]),
        decreases v.len() - i,
    {
        let c: char = v[i];
        assert(d[i - start] == c);
        if !('0' <= c && c <= '9') {
            return None;
        }
        proof {
            assert(d.take(i - start + 1).drop_last() =~= d.take(i - start));
            lemma_decimal_prefix(d, i - start + 1);
        }
        acc = acc * 10 + (c as u32 - '0' as u32) as u128;
        if acc > max as u128 {
            return None;
        }
        i = i + 1;
    }
    assert(d.take(i - start) =~= d);
    Some(acc as u64)
}

/// The character of a decimal digit.
pub open spec fn digit_char(d: nat) -> char {
    if d == 0 {
        '0'
    } else if d == 1 {
        '1'
    } else if d == 2 {
        '2'
    } else if d == 3 {
        '3'
    } else if d == 4 {
        '4'
    } else if d == 5 {
        '5'
    } else if d == 6 {
        '6'
    } else if d == 7 {
        '7'
    } else if d == 8 {
        '8'
    } else {
        '9'
    }
}

fn digit(d: u32) -> (r: char)
    requires
        d < 10,
    ensures
        r == digit_char(d as nat),
{
    if d == 0 {
        '0'
    } else if d == 1 {
        '1'
    } else if d == 2 {
        '2'
    } else if d == 3 {
        '3'
    } else if d == 4 {
        '4'
    } else if d == 5 {
        '5'
    } else if d == 6 {
        '6'
    } else if d == 7 {
        '7'
    } else if d == 8 {
        '8'
    } else {
        '9'
    }
}

/// The decimal numeral of a number.
pub open spec fn decimal(n: nat) -> Seq<char>
    decreases n,
{
    if n < 10 {
        seq![digit_char(n)]
    } else {
        decimal(n / 10).push(digit_char(n % 10))
    }
}

/// The last `places` decimal digits of a number.
pub open spec fn low_digits(n: nat, places: nat) -> Seq<char>
    decreases places,
{
    if places == 0 {
        Seq::empty()
    } else {
        low_digits(n / 10, (places - 1) as nat).push(digit_char(n % 10))
    }
}

/// A quotient rounded to the nearest whole number, to the even one of two equally near.
pub open spec fn rounded(num: nat, den: nat) -> nat {
    let q = num / den;
    let r = num % den;
    if 2 * r < den || 2 * r == den && q % 2 == 0 {
        q
    } else {
        q + 1
    }
}

/// A quotient written with a number of decimal places.
pub open spec fn fixed(num: nat, den: nat, places: nat) -> Seq<char> {
    let unit = pow(10, places) as nat;
    let q = rounded(num * unit, den);
    if places == 0 {
        decimal(q)
    } else {
        decimal(q / unit).push('.') + low_digits(q, places)
    }
}

/// Some number of spaces.
pub open spec fn spaces(n: int) -> Seq<char> {
    Seq::new(
        if n < 0 {
            0
        } else {
            n as nat
        },
        |i: int| ' ',
    )
}

/// Text moved to the right end of a field.
pub open spec fn to_right(s: Seq<char>, width: nat) -> Seq<char> {
    spaces(width - s.len()) + s
}

/// Text moved to the left end of a field.
pub open spec fn to_left(s: Seq<char>, width: nat) -> Seq<char> {
    s + spaces(width - s.len())
}

/// The characters in the opposite order.
fn reversed(v: &Vec<char>) -> (r: Vec<char>)
    ensures
        r@ == v@.reverse(),
{
    let mut r: Vec<char> = Vec::new();
    let mut n: usize = v.len();
    while n > 0
        invariant
            n <= v@.len(),
            r@ =~= v@.reverse().take(v@.len() - n),
        decreases n,
    {
        n = n - 1;
        r.push(v[n]);
    }
    assert(v@.reverse().take(v@.len() as int) =~= v@.reverse());
    r
}

/// Writes a number in decimal.
pub fn write_decimal(n: &Nat) -> (r: Vec<char>)
    ensures
        r@ == decimal(n@),
{
    let ten: Nat = Nat::from_u64(10);
    let mut rest: Nat = n.copy();
    let mut back: Vec<char> = Vec::new();
    assert(decimal(rest@) + back@.reverse() =~= decimal(n@));
    while !rest.less(&ten)
        invariant
            ten@ == 10,
            decimal(n@) == decimal(rest@) + back@.reverse(),
        decreases rest@,
    {
        let (q, d): (Nat, u32) = rest.div_rem_digit(10);
        let ghost before = rest@;
        let ghost low = back@;
        back.push(digit(d));
        rest = q;
        proof {
            assert(before / 10 == rest@ && before % 10 == d);
            assert(back@.reverse() =~= seq![digit_char(d as nat)] + low.reverse());
            assert(decimal(before) + low.reverse() =~= decimal(rest@) + back@.reverse());
        }
    }
    let (q, d): (Nat, u32) = rest.div_rem_digit(10);
    let ghost low = back@;
    back.push(digit(d));
    proof {
        assert(d == rest@);
        assert(back@.reverse() =~= seq![digit_char(d as nat)] + low.reverse());
    }
    reversed(&back)
}

/// Writes a count in decimal.
pub fn write_count(n: usize) -> (r: Vec<char>)
    ensures
        r@ == decimal(n as nat),
{
    write_decimal(&Nat::from_u64(n as u64))
}

/// Writes the last digits of a number.
fn write_low_digits(n: &Nat, places: u32) -> (r: Vec<char>)
    ensures
        r@ == low_digits(n@, places as nat),
{
    let mut rest: Nat = n.copy();
    let mut back: Vec<char> = Vec::new();
    let mut k: u32 = places;
    assert(low_digits(n@, k as nat) + back@.reverse() =~= low_digits(n@, places as nat));
    while k > 0
        invariant
            low_digits(n@, places as nat) == low_digits(rest@, k as nat) + back@.reverse(),
        decreases k,
    {
        let (q, d): (Nat, u32) = rest.div_rem_digit(10);
        let ghost before = rest@;
        let ghost low = back@;
        back.push(digit(d));
        rest = q;
        proof {
            assert(before / 10 == rest@ && before % 10 == d);
            assert(back@.reverse() =~= seq![digit_char(d as nat)] + low.reverse());
            assert(low_digits(before, k as nat) + low.reverse() =~= low_digits(
                rest@,
                (k - 1) as nat,
            ) + back@.reverse());
        }
        k = k - 1;
    }
    assert(low_digits(rest@, 0) + back@.reverse() =~= back@.reverse());
    reversed(&back)
}

/// Writes a quotient with a number of decimal places.
pub fn write_fixed(num: &Nat, den: &Nat, places: u32) -> (r: Vec<char>)
    requires
        den@ > 0,
    ensures
        r@ == fixed(num@, den@, places as nat),
{
    let ten: Nat = Nat::from_u64(10);
    let mut unit: Nat = Nat::from_u64(1);
    let mut k: u32 = 0;
    proof {
        lemma_pow0(10);
    }
    while k < places
        invariant
            ten@ == 10,
            k <= places,
            unit@ == pow(10, k as nat),
        decreases places - k,
    {
        proof {
            reveal(pow);
            let u = unit@ as int;
            assert(u * 10 == 10 * u);
        }
        unit = unit.times(&ten);
        k = k + 1;
    }
    proof {
        lemma_pow_positive(10, places as nat);
    }
    let (mut q, rest): (Nat, Nat) = num.times(&unit).div_rem(den);
    let twice: Nat = rest.plus(&rest);
    let (half, odd): (Nat, u32) = q.div_rem_digit(2);
    assert(q@ % 2 == odd);
    if !(twice.less(den) || (twice.same(den) && odd == 0)) {
        q = q.plus(&Nat::from_u64(1));
    }
    if places == 0 {
        proof {
            assert(unit@ == 1);
            assert(num@ * 1 == num@) by (nonlinear_arith);
        }
        return write_decimal(&q);
    }
    let (whole, part): (Nat, Nat) = q.div_rem(&unit);
    let mut r: Vec<char> = write_decimal(&whole);
    r.push('.');
    let mut low: Vec<char> = write_low_digits(&q, places);
    r.append(&mut low);
    r
}

/// Some number of spaces.
fn blank(n: usize) -> (r: Vec<char>)
    ensures
        r@ == spaces(n as int),
{
    let mut r: Vec<char> = Vec::new();
    let mut i: usize = 0;
    while i < n
        invariant
            i <= n,
            r@ =~= spaces(i as int),
        decreases n - i,
    {
        r.push(' ');
        i = i + 1;
    }
    r
}

/// Moves text to the right end of a field.
pub fn right(v: Vec<char>, width: usize) -> (r: Vec<char>)
    ensures
        r@ == to_right(v@, width as nat),
{
    if v.len() >= width {
        assert(to_right(v@, width as nat) =~= v@);
        return v;
    }
    let mut tail: Vec<char> = v;
    let mut r: Vec<char> = blank(width - tail.len());
    r.append(&mut tail);
    r
}

/// Moves text to the left end of a field.
pub fn left(v: Vec<char>, width: usize) -> (r: Vec<char>)
    ensures
        r@ == to_left(v@, width as nat),
{
    if v.len() >= width {
        assert(to_left(v@, width as nat) =~= v@);
        return v;
    }
    let mut r: Vec<char> = v;
    let mut tail: Vec<char> = blank(width - r.len());
    r.append(&mut tail);
    r
}

/// Appends characters to a string.
pub fn append_chars(out: &mut String, v: &Vec<char>)
    ensures
        final(out)@ == old(out)@ + v@,
{
    let ghost start = out@;
    let mut i: usize = 0;
    while i < v.len()
        invariant
            i <= v@.len(),
            out@ =~= start + v@.take(i as int),
        decreases v.len() - i,
    {
        out.push(v[i]);
        i = i + 1;
    }
    assert(v@.take(i as int) =~= v@);
}

} // verus!
