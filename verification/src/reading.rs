//! Reading back what is printed.
//!
//! A printed text is a sequence of words, and a printed number is digits with or
//! without a point. This module says what words and numbers a reader sees, with no
//! regard to how they were written.

use crate::text::{
    decimal, decimal_value, digit_char, fixed, is_digit, low_digits, number_of, numeral_digits,
    rounded, spaces, to_left, to_right,
};
use vstd::arithmetic::power::{lemma_pow0, lemma_pow1, lemma_pow_adds, lemma_pow_positive, pow};
use vstd::prelude::*;

verus! {

// ---------------------------------------------------------------------------
// Words
// ---------------------------------------------------------------------------

/// Whether a character separates words.
pub open spec fn is_blank(c: char) -> bool {
    c == ' ' || c == '\n'
}

/// The words of a text: its longest runs of characters that are not blank.
pub open spec fn words(s: Seq<char>) -> Seq<Seq<char>>
    decreases s.len(),
{
    if s.len() == 0 {
        Seq::empty()
    } else {
        let t = s.drop_last();
        if is_blank(s.last()) {
            words(t)
        } else if t.len() > 0 && !is_blank(t.last()) {
            words(t).drop_last().push(words(t).last().push(s.last()))
        } else {
            words(t).push(seq![s.last()])
        }
    }
}

proof fn lemma_words_nonempty(s: Seq<char>)
    requires
        s.len() > 0,
        !is_blank(s.last()),
    ensures
        words(s).len() > 0,
{
    let t = s.drop_last();
    if t.len() > 0 && !is_blank(t.last()) {
        assert(words(s).len() == words(t).drop_last().len() + 1);
    }
}

/// Two texts with a blank where they meet have the words of both.
pub proof fn lemma_words_join(a: Seq<char>, b: Seq<char>)
    requires
        a.len() == 0 || is_blank(a.last()) || b.len() == 0 || is_blank(b[0]),
    ensures
        words(a + b) == words(a) + words(b),
    decreases b.len(),
{
    let s = a + b;
    if b.len() == 0 {
        assert(s =~= a);
        assert(words(a) + words(b) =~= words(a));
    } else {
        let t = b.drop_last();
        assert(s.drop_last() =~= a + t);
        assert(s.last() == b.last());
        if t.len() > 0 {
            assert(t[0] == b[0]);
        }
        lemma_words_join(a, t);
        let wa = words(a);
        let wt = words(t);
        if is_blank(b.last()) {
        } else if t.len() > 0 && !is_blank(t.last()) {
            assert((a + t).last() == t.last());
            lemma_words_nonempty(t);
            let w = wt.last().push(b.last());
            assert((wa + wt).last() == wt.last());
            assert((wa + wt).drop_last().push(w) =~= wa + wt.drop_last().push(w));
        } else if t.len() > 0 {
            assert((a + t).last() == t.last());
            assert((wa + wt).push(seq![b.last()]) =~= wa + wt.push(seq![b.last()]));
        } else {
            assert(a + t =~= a);
            assert(wa + wt =~= wa);
            assert(b[0] == b.last());
            assert(wt.push(seq![b.last()]) =~= seq![seq![b.last()]]);
            assert(wa.push(seq![b.last()]) =~= wa + seq![seq![b.last()]]);
        }
    }
}

/// Whether a text is a single word.
pub open spec fn is_word(x: Seq<char>) -> bool {
    x.len() > 0 && forall|i: int| 0 <= i < x.len() ==> !is_blank(#[trigger] x[i])
}

pub proof fn lemma_word(x: Seq<char>)
    requires
        is_word(x),
    ensures
        words(x) == seq![x],
    decreases x.len(),
{
    let t = x.drop_last();
    assert(!is_blank(x[x.len() - 1]));
    if t.len() > 0 {
        assert forall|i: int| 0 <= i < t.len() implies !is_blank(#[trigger] t[i]) by {
            assert(t[i] == x[i]);
        }
        lemma_word(t);
        assert(!is_blank(t[t.len() - 1]));
        assert(t.push(x.last()) =~= x);
        assert(seq![t].drop_last().push(x) =~= seq![x]);
    } else {
        assert(t =~= Seq::empty());
        assert(x =~= seq![x.last()]);
        assert(words(t).push(x) =~= seq![x]);
    }
}

pub proof fn lemma_words_of_spaces(n: int)
    ensures
        words(spaces(n)) == Seq::<Seq<char>>::empty(),
    decreases n,
{
    if n > 0 {
        lemma_words_of_spaces(n - 1);
        assert(spaces(n).drop_last() =~= spaces(n - 1));
        assert(spaces(n).last() == ' ');
    } else {
        assert(spaces(n) =~= Seq::empty());
    }
}

/// A word in a field is still that word.
pub proof fn lemma_words_in_field(x: Seq<char>, width: nat)
    requires
        is_word(x),
    ensures
        words(to_right(x, width)) == seq![x],
        words(to_left(x, width)) == seq![x],
        to_right(x, width).len() > 0,
        to_left(x, width).len() > 0,
        !is_blank(to_right(x, width).last()),
        !is_blank(to_left(x, width)[0]),
{
    let s = spaces(width - x.len());
    lemma_word(x);
    lemma_words_of_spaces(width - x.len());
    if s.len() > 0 {
        assert(s[0] == ' ' && s.last() == ' ');
    }
    lemma_words_join(s, x);
    lemma_words_join(x, s);
    assert(Seq::<Seq<char>>::empty() + seq![x] =~= seq![x]);
    assert(seq![x] + Seq::<Seq<char>>::empty() =~= seq![x]);
    assert(to_right(x, width).last() == x[x.len() - 1]);
    assert(to_left(x, width)[0] == x[0]);
}

/// The words of a text that has a label, a word and what follows it.
pub open spec fn labelled(label: Seq<char>, x: Seq<char>, tail: Seq<char>) -> Seq<Seq<char>> {
    words(label).push(x) + words(tail)
}

/// A word between a label and what follows it, with spaces in front.
pub proof fn lemma_labelled(label: Seq<char>, n: int, x: Seq<char>, tail: Seq<char>)
    requires
        label.len() > 0,
        is_blank(label.last()),
        is_word(x),
        tail.len() > 0,
        is_blank(tail[0]),
    ensures
        words(label + (spaces(n) + x) + tail) == labelled(label, x, tail),
        (label + (spaces(n) + x) + tail).last() == tail.last(),
        (label + (spaces(n) + x) + tail).len() > 0,
{
    let s = spaces(n);
    lemma_word(x);
    lemma_words_of_spaces(n);
    if s.len() > 0 {
        assert(s.last() == ' ');
    }
    lemma_words_join(s, x);
    assert(Seq::<Seq<char>>::empty() + seq![x] =~= seq![x]);
    lemma_words_join(label, s + x);
    lemma_words_join(label + (s + x), tail);
    assert(words(label) + seq![x] =~= words(label).push(x));
}

// ---------------------------------------------------------------------------
// Numbers
// ---------------------------------------------------------------------------

/// Whether a character is a figure from zero to nine.
pub open spec fn is_figure(c: char) -> bool {
    48 <= c as int <= 57
}

/// The number that figures denote.
pub open spec fn numeral(s: Seq<char>) -> int
    decreases s.len(),
{
    if s.len() == 0 {
        0
    } else {
        10 * numeral(s.drop_last()) + (s.last() as int - 48)
    }
}

/// Whether a text is figures only, one at least.
pub open spec fn is_figures(s: Seq<char>) -> bool {
    s.len() > 0 && forall|i: int| 0 <= i < s.len() ==> is_figure(#[trigger] s[i])
}

/// Whether a text is a whole number without needless zeros.
pub open spec fn is_whole(s: Seq<char>) -> bool {
    is_figures(s) && (s.len() > 1 ==> s[0] != '0')
}

/// Whether a text is a number with exactly `places` figures behind its point.
pub open spec fn is_decimal(s: Seq<char>, places: nat) -> bool {
    if places == 0 {
        is_whole(s)
    } else {
        let k = s.len() - places - 1;
        k >= 1 && s[k] == '.' && is_whole(s.take(k)) && is_figures(s.skip(k + 1))
    }
}

/// The number that a text with `places` figures behind its point denotes, in units of
/// the last place.
pub open spec fn reading(s: Seq<char>, places: nat) -> int {
    if places == 0 {
        numeral(s)
    } else {
        let k = s.len() - places - 1;
        numeral(s.take(k)) * pow(10, places) + numeral(s.skip(k + 1))
    }
}

/// Whether a whole number is nearest to a quotient, and the even one of two nearest.
pub open spec fn is_nearest(q: int, num: int, den: int) -> bool {
    &&& 2 * (q * den - num) <= den
    &&& 2 * (num - q * den) <= den
    &&& 2 * (q * den - num) == den || 2 * (num - q * den) == den ==> q % 2 == 0
}

/// Whether a text shows a quotient, correctly rounded, with `places` decimal places.
pub open spec fn displays(s: Seq<char>, num: int, den: int, places: nat) -> bool {
    is_decimal(s, places) && is_nearest(reading(s, places), num * pow(10, places), den)
}

/// Whether a text shows a whole number.
pub open spec fn displays_whole(s: Seq<char>, n: int) -> bool {
    is_whole(s) && numeral(s) == n
}

/// The figure of a number below ten is the character that many places after zero.
pub proof fn law_digit_char(d: nat)
    requires
        d < 10,
    ensures
        digit_char(d) as int == 48 + d,
{
}

/// A whole number is printed as itself.
pub proof fn law_decimal_reads(n: nat)
    ensures
        displays_whole(decimal(n), n as int),
    decreases n,
{
    let s = decimal(n);
    if n < 10 {
        assert(s.drop_last() =~= Seq::empty());
        assert(numeral(Seq::empty()) == 0);
        law_digit_char(n);
    } else {
        law_decimal_reads(n / 10);
        law_digit_char(n % 10);
        let t = decimal(n / 10);
        assert(s.drop_last() =~= t);
        assert(s[0] == t[0]);
        assert(t.len() == 1 ==> numeral(t) != 0);
        if t.len() == 1 {
            assert(t.drop_last() =~= Seq::empty());
            assert(numeral(Seq::empty()) == 0);
            assert(numeral(t) == t.last() as int - 48);
        }
    }
}

proof fn lemma_low_digits(n: nat, places: nat)
    ensures
        low_digits(n, places).len() == places,
        forall|i: int| 0 <= i < places ==> is_figure(#[trigger] low_digits(n, places)[i]),
        numeral(low_digits(n, places)) == n % (pow(10, places) as nat),
        pow(10, places) > 0,
    decreases places,
{
    lemma_pow_positive(10, places);
    if places == 0 {
        lemma_pow0(10);
        assert(n % 1 == 0);
    } else {
        let p = (places - 1) as nat;
        lemma_low_digits(n / 10, p);
        law_digit_char(n % 10);
        let s = low_digits(n, places);
        assert(s.drop_last() =~= low_digits(n / 10, p));
        lemma_pow1(10);
        lemma_pow_adds(10, 1, p);
        assert(1 + p == places);
        vstd::arithmetic::div_mod::lemma_mod_breakdown(n as int, 10, pow(10, p));
    }
}

proof fn lemma_rounded(num: nat, den: nat)
    requires
        den > 0,
    ensures
        is_nearest(rounded(num, den) as int, num as int, den as int),
{
    let q = (num / den) as int;
    let d = den as int;
    vstd::arithmetic::div_mod::lemma_fundamental_div_mod(num as int, d);
    assert(q * d == d * q) by (nonlinear_arith);
    assert((q + 1) * d == d * q + d) by (nonlinear_arith);
}

/// A quotient is printed correctly rounded.
pub proof fn law_fixed_reads(num: nat, den: nat, places: nat)
    requires
        den > 0,
    ensures
        displays(fixed(num, den, places), num as int, den as int, places),
        is_word(fixed(num, den, places)),
{
    let unit = pow(10, places) as nat;
    let s = fixed(num, den, places);
    lemma_pow_positive(10, places);
    let q = rounded(num * unit, den);
    lemma_rounded(num * unit, den);
    if places == 0 {
        law_decimal_reads(q);
    } else {
        let a = decimal(q / unit);
        let b = low_digits(q, places);
        law_decimal_reads(q / unit);
        lemma_low_digits(q, places);
        let k = a.len() as int;
        assert(s =~= a.push('.') + b);
        assert(s.take(k) =~= a);
        assert(s.skip(k + 1) =~= b);
        assert(s[k] == '.');
        vstd::arithmetic::div_mod::lemma_fundamental_div_mod(q as int, unit as int);
        let w = (q / unit) as int;
        let u = unit as int;
        assert(w * u == u * w) by (nonlinear_arith);
    }
    assert forall|i: int| 0 <= i < s.len() implies !is_blank(#[trigger] s[i]) by {
        if places > 0 {
            let k = s.len() - places - 1;
            if i < k {
                assert(s.take(k)[i] == s[i]);
            } else if i > k {
                assert(s.skip(k + 1)[i - k - 1] == s[i]);
            }
        }
    }
}

pub proof fn lemma_decimal_word(n: nat)
    ensures
        is_word(decimal(n)),
{
    law_decimal_reads(n);
}

/// A number that is shown is shown in one way only.
pub proof fn law_shown_once(a: Seq<char>, b: Seq<char>, n: int)
    requires
        displays_whole(a, n),
        displays_whole(b, n),
    ensures
        a == b,
    decreases a.len(),
{
    let x = a.last();
    let y = b.last();
    let s = a.drop_last();
    let t = b.drop_last();
    assert(is_figure(a[a.len() - 1]) && is_figure(b[b.len() - 1]));
    lemma_numeral_positive(s);
    lemma_numeral_positive(t);
    assert(x as int == y as int);
    assert(numeral(s) == numeral(t));
    if s.len() > 0 && t.len() > 0 {
        assert forall|i: int| 0 <= i < s.len() implies is_figure(#[trigger] s[i]) by {
            assert(s[i] == a[i]);
        }
        assert forall|i: int| 0 <= i < t.len() implies is_figure(#[trigger] t[i]) by {
            assert(t[i] == b[i]);
        }
        assert(s[0] == a[0] && t[0] == b[0]);
        law_shown_once(s, t, numeral(s));
    } else if s.len() > 0 {
        assert(s[0] == a[0]);
        assert(is_figure(a[0]));
        lemma_numeral_leading(s);
    } else if t.len() > 0 {
        assert(t[0] == b[0]);
        assert(is_figure(b[0]));
        lemma_numeral_leading(t);
    }
    assert(a =~= s.push(x));
    assert(b =~= t.push(y));
}

proof fn lemma_numeral_positive(s: Seq<char>)
    ensures
        (forall|i: int| 0 <= i < s.len() ==> is_figure(#[trigger] s[i])) ==> numeral(s) >= 0,
    decreases s.len(),
{
    if s.len() > 0 {
        let t = s.drop_last();
        lemma_numeral_positive(t);
        if forall|i: int| 0 <= i < s.len() ==> is_figure(#[trigger] s[i]) {
            assert forall|i: int| 0 <= i < t.len() implies is_figure(#[trigger] t[i]) by {
                assert(t[i] == s[i]);
            }
            assert(is_figure(s[s.len() - 1]));
        }
    }
}

proof fn lemma_numeral_leading(s: Seq<char>)
    requires
        s.len() > 0,
        forall|i: int| 0 <= i < s.len() ==> is_figure(#[trigger] s[i]),
        s[0] != '0',
    ensures
        numeral(s) > 0,
    decreases s.len(),
{
    let t = s.drop_last();
    assert(is_figure(s[s.len() - 1]));
    if t.len() > 0 {
        assert forall|i: int| 0 <= i < t.len() implies is_figure(#[trigger] t[i]) by {
            assert(t[i] == s[i]);
        }
        assert(t[0] == s[0]);
        lemma_numeral_leading(t);
    } else {
        assert(t =~= Seq::empty());
        assert(s[0] == s.last());
    }
}

proof fn lemma_numeral_bound(s: Seq<char>)
    requires
        forall|i: int| 0 <= i < s.len() ==> is_figure(#[trigger] s[i]),
    ensures
        0 <= numeral(s) < pow(10, s.len()),
    decreases s.len(),
{
    lemma_numeral_positive(s);
    if s.len() == 0 {
        lemma_pow0(10);
    } else {
        let t = s.drop_last();
        assert forall|i: int| 0 <= i < t.len() implies is_figure(#[trigger] t[i]) by {
            assert(t[i] == s[i]);
        }
        lemma_numeral_bound(t);
        lemma_pow1(10);
        lemma_pow_adds(10, 1, t.len());
        assert(1 + t.len() == s.len());
        assert(is_figure(s[s.len() - 1]));
    }
}

proof fn lemma_same_figures(a: Seq<char>, b: Seq<char>)
    requires
        a.len() == b.len(),
        forall|i: int| 0 <= i < a.len() ==> is_figure(#[trigger] a[i]),
        forall|i: int| 0 <= i < b.len() ==> is_figure(#[trigger] b[i]),
        numeral(a) == numeral(b),
    ensures
        a == b,
    decreases a.len(),
{
    if a.len() == 0 {
        assert(a =~= b);
    } else {
        let s = a.drop_last();
        let t = b.drop_last();
        assert forall|i: int| 0 <= i < s.len() implies is_figure(#[trigger] s[i]) && is_figure(
            #[trigger] t[i],
        ) by {
            assert(s[i] == a[i] && t[i] == b[i]);
        }
        assert(is_figure(a[a.len() - 1]) && is_figure(b[b.len() - 1]));
        lemma_numeral_positive(s);
        lemma_numeral_positive(t);
        assert(a.last() as int == b.last() as int);
        lemma_same_figures(s, t);
        assert(a =~= s.push(a.last()));
        assert(b =~= t.push(b.last()));
    }
}

proof fn lemma_nearest_once(p: int, q: int, num: int, den: int)
    requires
        den > 0,
        is_nearest(p, num, den),
        is_nearest(q, num, den),
    ensures
        p == q,
{
    lemma_nearest_order(p, q, num, den);
    lemma_nearest_order(q, p, num, den);
}

proof fn lemma_nearest_order(p: int, q: int, num: int, den: int)
    requires
        den > 0,
        is_nearest(p, num, den),
        is_nearest(q, num, den),
    ensures
        p >= q,
{
    if p < q {
        let d = q - p;
        assert(q * den == p * den + d * den) by (nonlinear_arith)
            requires
                d == q - p,
        ;
        if d >= 2 {
            assert(d * den >= 2 * den) by (nonlinear_arith)
                requires
                    d >= 2,
                    den > 0,
            ;
        } else {
            assert(d == 1);
            assert(d * den == den) by (nonlinear_arith)
                requires
                    d == 1,
            ;
        }
    }
}

/// There is one text only that shows a quotient with a number of decimal places.
pub proof fn law_displayed_once(
    a: Seq<char>,
    b: Seq<char>,
    num: int,
    den: int,
    places: nat,
)
    requires
        den > 0,
        displays(a, num, den, places),
        displays(b, num, den, places),
    ensures
        a == b,
{
    lemma_nearest_once(reading(a, places), reading(b, places), num * pow(10, places), den);
    if places == 0 {
        law_shown_once(a, b, numeral(a));
    } else {
        let i = a.len() - places - 1;
        let j = b.len() - places - 1;
        let unit = pow(10, places);
        let x = numeral(a.take(i));
        let y = numeral(b.take(j));
        let u = numeral(a.skip(i + 1));
        let v = numeral(b.skip(j + 1));
        lemma_numeral_bound(a.skip(i + 1));
        lemma_numeral_bound(b.skip(j + 1));
        assert(x == y) by (nonlinear_arith)
            requires
                x * unit + u == y * unit + v,
                0 <= u < unit,
                0 <= v < unit,
        ;
        law_shown_once(a.take(i), b.take(j), x);
        lemma_same_figures(a.skip(i + 1), b.skip(j + 1));
        assert(a =~= a.take(i).push('.') + a.skip(i + 1));
        assert(b =~= b.take(j).push('.') + b.skip(j + 1));
    }
}

/// Whether a text denotes a number: figures, with or without a plus sign in front.
pub open spec fn denotes(s: Seq<char>, n: int) -> bool {
    let f = if s.len() > 0 && s[0] == '+' {
        s.skip(1)
    } else {
        s
    };
    is_figures(f) && numeral(f) == n
}

proof fn lemma_decimal_value(s: Seq<char>)
    requires
        forall|i: int| 0 <= i < s.len() ==> is_figure(#[trigger] s[i]),
    ensures
        decimal_value(s) == numeral(s),
    decreases s.len(),
{
    if s.len() > 0 {
        let t = s.drop_last();
        assert forall|i: int| 0 <= i < t.len() implies is_figure(#[trigger] t[i]) by {
            assert(t[i] == s[i]);
        }
        lemma_decimal_value(t);
        assert(is_figure(s[s.len() - 1]));
    }
}

/// A number is read from a text just where the text denotes it and it is not too large.
pub proof fn law_number_of(s: Seq<char>, max: nat, n: nat)
    ensures
        number_of(s, max) == Some(n) <==> denotes(s, n as int) && n <= max,
{
    let f = numeral_digits(s);
    assert forall|i: int| 0 <= i < f.len() implies is_digit(#[trigger] f[i]) == is_figure(f[i]) by {
    }
    if is_figures(f) {
        lemma_decimal_value(f);
    } else if f.len() > 0 {
        let i = choose|i: int| 0 <= i < f.len() && !is_figure(#[trigger] f[i]);
        assert(!is_digit(f[i]));
    }
}

/// A quotient is printed alike however its two terms are scaled.
pub proof fn law_fixed_scaled(num: nat, den: nat, places: nat, s: nat)
    requires
        den > 0,
        s > 0,
    ensures
        fixed(num * s, den * s, places) == fixed(num, den, places),
{
    let unit = pow(10, places) as nat;
    lemma_pow_positive(10, places);
    let n = num * unit;
    assert((num * s) * unit == n * s) by (nonlinear_arith)
        requires
            n == num * unit,
    ;
    let q = (n / den) as int;
    let r = (n % den) as int;
    let d = den as int;
    let k = s as int;
    vstd::arithmetic::div_mod::lemma_fundamental_div_mod(n as int, d);
    assert((n * s) as int == (d * k) * q + r * k) by (nonlinear_arith)
        requires
            n == d * q + r,
            k == s,
    ;
    assert(0 <= r * k < d * k) by (nonlinear_arith)
        requires
            0 <= r < d,
            k > 0,
    ;
    vstd::arithmetic::div_mod::lemma_fundamental_div_mod_converse(
        (n * s) as int,
        d * k,
        q,
        r * k,
    );
    assert(2 * r < d <==> 2 * (r * k) < d * k) by (nonlinear_arith)
        requires
            k > 0,
    ;
    assert(2 * r == d <==> 2 * (r * k) == d * k) by (nonlinear_arith)
        requires
            k > 0,
    ;
}

} // verus!
