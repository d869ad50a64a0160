//! What holds of trimming, splitting and writing numbers.

use crate::text::{
    decimal, decimal_value, digit_char, is_digit, is_space, number_of, numeral_digits,
    split_at_char, trim_end, trim_start, trimmed,
};
use vstd::prelude::*;

verus! {

/// Whether there is no white space at either end.
pub open spec fn is_trim(s: Seq<char>) -> bool {
    s.len() > 0 ==> !is_space(s[0]) && !is_space(s.last())
}

proof fn lemma_trim_start(s: Seq<char>) -> (k: int)
    ensures
        0 <= k <= s.len(),
        trim_start(s) == s.skip(k),
        forall|i: int| 0 <= i < k ==> is_space(#[trigger] s[i]),
        trim_start(s).len() > 0 ==> !is_space(trim_start(s)[0]),
    decreases s.len(),
{
    if s.len() > 0 && is_space(s[0]) {
        let t = s.drop_first();
        let k = lemma_trim_start(t);
        assert(t.skip(k) =~= s.skip(k + 1));
        assert forall|i: int| 0 <= i < k + 1 implies is_space(#[trigger] s[i]) by {
            if i > 0 {
                assert(s[i] == t[i - 1]);
            }
        }
        k + 1
    } else {
        assert(s.skip(0) =~= s);
        0
    }
}

proof fn lemma_trim_end(s: Seq<char>) -> (k: int)
    ensures
        0 <= k <= s.len(),
        trim_end(s) == s.take(k),
        forall|i: int| k <= i < s.len() ==> is_space(#[trigger] s[i]),
        trim_end(s).len() > 0 ==> !is_space(trim_end(s).last()),
        s.len() > 0 && !is_space(s[0]) ==> k > 0,
    decreases s.len(),
{
    if s.len() > 0 && is_space(s.last()) {
        let t = s.drop_last();
        let k = lemma_trim_end(t);
        assert(t.take(k) =~= s.take(k));
        assert forall|i: int| k <= i < s.len() implies is_space(#[trigger] s[i]) by {
            if i < t.len() {
                assert(s[i] == t[i]);
            }
        }
        k
    } else {
        assert(s.take(s.len() as int) =~= s);
        s.len() as int
    }
}

/// What is left after trimming is a part of the text that has no white space at
/// either end.
pub proof fn lemma_trimmed(s: Seq<char>)
    ensures
        is_trim(trimmed(s)),
        forall|c: char| trimmed(s).contains(c) ==> s.contains(c),
{
    let a = lemma_trim_start(s);
    let t = trim_start(s);
    let b = lemma_trim_end(t);
    assert forall|c: char| trimmed(s).contains(c) implies s.contains(c) by {
        let i = trimmed(s).index_of(c);
        assert(trimmed(s)[i] == c);
        assert(t[i] == c);
        assert(s[a + i] == c);
    }
}

/// Trimming takes off the white space at both ends and nothing else: it leaves the part
/// from one place to another, with white space only outside and none at the ends of it.
pub proof fn law_trimmed(s: Seq<char>) -> (r: (int, int))
    ensures
        0 <= r.0 <= r.1 <= s.len(),
        trimmed(s) == s.subrange(r.0, r.1),
        forall|i: int| 0 <= i < r.0 || r.1 <= i < s.len() ==> is_space(#[trigger] s[i]),
        r.0 < r.1 ==> !is_space(s[r.0]) && !is_space(s[r.1 - 1]),
{
    let a = lemma_trim_start(s);
    let t = trim_start(s);
    let k = lemma_trim_end(t);
    let b = a + k;
    lemma_trimmed(s);
    assert(t.take(k) =~= s.subrange(a, b));
    assert forall|i: int| 0 <= i < a || b <= i < s.len() implies is_space(#[trigger] s[i]) by {
        if b <= i {
            assert(t[i - a] == s[i]);
        }
    }
    if a < b {
        assert(trimmed(s)[0] == s[a]);
        assert(trimmed(s).last() == s[b - 1]);
    }
    (a, b)
}

/// Text without white space at its ends stays as it is.
pub proof fn lemma_trim_fixed(s: Seq<char>)
    requires
        is_trim(s),
    ensures
        trimmed(s) == s,
{
    assert(trim_start(s) == s);
}

/// A space in front does not matter.
proof fn lemma_trim_space_before(s: Seq<char>, c: char)
    requires
        is_space(c),
    ensures
        trimmed(seq![c] + s) == trimmed(s),
{
    assert((seq![c] + s).drop_first() =~= s);
}

/// A space behind does not matter.
proof fn lemma_trim_space_after(s: Seq<char>, c: char)
    requires
        is_space(c),
    ensures
        trimmed(s.push(c)) == trimmed(s),
    decreases s.len(),
{
    let t = s.push(c);
    if s.len() == 0 {
        assert(t.drop_first() =~= s);
        assert(trim_start(t) == trim_start(t.drop_first()));
    } else if is_space(s[0]) {
        assert(t.drop_first() =~= s.drop_first().push(c));
        lemma_trim_space_after(s.drop_first(), c);
    } else {
        assert(trim_start(t) == t);
        assert(t.drop_last() =~= s);
    }
}

/// Splitting a text that starts with a given character.
proof fn lemma_split_first(s: Seq<char>, c: char, sep: char)
    ensures
        split_at_char(s, sep).len() > 0,
        c == sep ==> split_at_char(seq![c] + s, sep) == seq![Seq::<char>::empty()] + split_at_char(
            s,
            sep,
        ),
        c != sep ==> split_at_char(seq![c] + s, sep) == split_at_char(s, sep).update(
            0,
            seq![c] + split_at_char(s, sep)[0],
        ),
    decreases s.len(),
{
    let t = seq![c] + s;
    let p = split_at_char(s, sep);
    let e = Seq::<char>::empty();
    if s.len() == 0 {
        assert(t.drop_last() =~= s);
        assert(t.last() == c);
        assert(e.push(c) =~= seq![c] + e);
        if c == sep {
            assert(split_at_char(t, sep) =~= seq![e] + p);
        } else {
            assert(split_at_char(t, sep) =~= p.update(0, seq![c] + p[0]));
        }
    } else {
        let r = s.drop_last();
        let q = split_at_char(r, sep);
        lemma_split_first(r, c, sep);
        assert(t.drop_last() =~= seq![c] + r);
        assert(t.last() == s.last());
        let l = s.last();
        let u = split_at_char(t.drop_last(), sep);
        if c == sep {
            if l == sep {
                assert(u.push(e) =~= seq![e] + q.push(e));
            } else {
                assert(u.update(u.len() - 1, u.last().push(l)) =~= seq![e] + q.update(
                    q.len() - 1,
                    q.last().push(l),
                ));
            }
        } else {
            if l == sep {
                assert(u.push(e) =~= q.push(e).update(0, seq![c] + q.push(e)[0]));
            } else {
                let v = q.update(q.len() - 1, q.last().push(l));
                if q.len() == 1 {
                    assert((seq![c] + q[0]).push(l) =~= seq![c] + q[0].push(l));
                }
                assert(u.update(u.len() - 1, u.last().push(l)) =~= v.update(0, seq![c] + v[0]));
            }
        }
    }
}

/// The pieces do not hold the separator, nor anything that the text does not hold.
pub proof fn lemma_split_pieces(s: Seq<char>, sep: char)
    ensures
        split_at_char(s, sep).len() > 0,
        forall|i: int|
            0 <= i < split_at_char(s, sep).len() ==> !(#[trigger] split_at_char(
                s,
                sep,
            )[i]).contains(sep),
        forall|i: int, c: char|
            0 <= i < split_at_char(s, sep).len() && #[trigger] split_at_char(s, sep)[i].contains(c)
                ==> s.contains(c),
    decreases s.len(),
{
    let r = split_at_char(s, sep);
    if s.len() > 0 {
        let t = s.drop_last();
        let p = split_at_char(t, sep);
        let l = s.last();
        lemma_split_pieces(t, sep);
        assert(s[s.len() - 1] == l);
        assert forall|i: int, c: char|
            0 <= i < r.len() && #[trigger] r[i].contains(c) implies s.contains(c) && c != sep by {
            let k = r[i].index_of(c);
            assert(r[i][k] == c);
            if l != sep && i == r.len() - 1 {
                if k < p.last().len() {
                    assert(p[i][k] == c);
                    assert(p[i].contains(c));
                    let j = t.index_of(c);
                    assert(s[j] == c);
                }
            } else if i < p.len() {
                assert(p[i][k] == c);
                assert(p[i].contains(c));
                let j = t.index_of(c);
                assert(s[j] == c);
            }
        }
    } else {
        assert(r[0] =~= Seq::empty());
    }
}

/// A text without the separator is its only piece.
pub proof fn lemma_split_none(s: Seq<char>, sep: char)
    requires
        !s.contains(sep),
    ensures
        split_at_char(s, sep) == seq![s],
    decreases s.len(),
{
    if s.len() > 0 {
        let t = s.drop_last();
        assert(s[s.len() - 1] != sep);
        assert(!t.contains(sep)) by {
            if t.contains(sep) {
                assert(s[t.index_of(sep)] == sep);
            }
        }
        lemma_split_none(t, sep);
        assert(t.push(s.last()) =~= s);
        assert(split_at_char(s, sep) =~= seq![s]);
    } else {
        assert(s =~= Seq::empty());
    }
}

/// The pieces of two texts with a separator between them.
pub proof fn lemma_split_joined(a: Seq<char>, sep: char, b: Seq<char>)
    ensures
        split_at_char(a.push(sep) + b, sep) == split_at_char(a, sep) + split_at_char(b, sep),
    decreases b.len(),
{
    let s = a.push(sep) + b;
    let p = split_at_char(a, sep);
    if b.len() == 0 {
        assert(s =~= a.push(sep));
        assert(s.drop_last() =~= a);
        assert(p.push(Seq::empty()) =~= p + seq![Seq::empty()]);
    } else {
        let t = b.drop_last();
        let q = split_at_char(t, sep);
        lemma_split_joined(a, sep, t);
        lemma_split_pieces(t, sep);
        assert(s.drop_last() =~= a.push(sep) + t);
        let l = b.last();
        if l == sep {
            assert((p + q).push(Seq::empty()) =~= p + q.push(Seq::empty()));
        } else {
            assert((p + q).update((p + q).len() - 1, (p + q).last().push(l)) =~= p + q.update(
                q.len() - 1,
                q.last().push(l),
            ));
        }
    }
}

/// The pieces of a text, each without white space at its ends.
pub open spec fn trimmed_pieces(s: Seq<char>, sep: char) -> Seq<Seq<char>> {
    split_at_char(s, sep).map_values(|f: Seq<char>| trimmed(f))
}

proof fn lemma_pieces_after_trim_end(s: Seq<char>, sep: char)
    requires
        !is_space(sep),
    ensures
        trimmed_pieces(trim_end(s), sep) == trimmed_pieces(s, sep),
    decreases s.len(),
{
    if s.len() > 0 && is_space(s.last()) {
        let t = s.drop_last();
        lemma_pieces_after_trim_end(t, sep);
        lemma_split_pieces(t, sep);
        let p = split_at_char(t, sep);
        lemma_trim_space_after(p.last(), s.last());
        assert(trimmed_pieces(s, sep) =~= trimmed_pieces(t, sep));
    }
}

proof fn lemma_pieces_after_trim_start(s: Seq<char>, sep: char)
    requires
        !is_space(sep),
    ensures
        trimmed_pieces(trim_start(s), sep) == trimmed_pieces(s, sep),
    decreases s.len(),
{
    if s.len() > 0 && is_space(s[0]) {
        let t = s.drop_first();
        lemma_pieces_after_trim_start(t, sep);
        assert(s =~= seq![s[0]] + t);
        lemma_split_first(t, s[0], sep);
        let p = split_at_char(t, sep);
        lemma_trim_space_before(p[0], s[0]);
        assert(trimmed_pieces(s, sep) =~= trimmed_pieces(t, sep));
    }
}

/// White space at the ends of a text does not matter once its pieces are trimmed.
pub proof fn lemma_pieces_after_trim(s: Seq<char>, sep: char)
    requires
        !is_space(sep),
    ensures
        trimmed_pieces(trimmed(s), sep) == trimmed_pieces(s, sep),
{
    lemma_pieces_after_trim_start(s, sep);
    lemma_pieces_after_trim_end(trim_start(s), sep);
}

/// How the first piece of a trimmed text starts.
pub proof fn lemma_first_piece(s: Seq<char>, sep: char)
    requires
        !is_space(sep),
    ensures
        ({
            let t = trimmed(s);
            let p = trimmed_pieces(s, sep);
            &&& p.len() > 0
            &&& t.len() == 0 <==> p.len() == 1 && p[0].len() == 0
            &&& t.len() > 0 && t[0] != sep ==> p[0].len() > 0 && p[0][0] == t[0]
            &&& t.len() > 0 && t[0] == sep ==> p[0].len() == 0
        }),
{
    let t = trimmed(s);
    lemma_trimmed(s);
    lemma_pieces_after_trim(s, sep);
    lemma_split_pieces(t, sep);
    let q = split_at_char(t, sep);
    let p = trimmed_pieces(t, sep);
    if t.len() == 0 {
        lemma_trim_fixed(Seq::<char>::empty());
        assert(q[0] =~= Seq::empty());
        assert(p[0] == trimmed(q[0]));
    } else {
        let u = t.drop_first();
        assert(t =~= seq![t[0]] + u);
        lemma_split_first(u, t[0], sep);
        assert(p[0] == trimmed(q[0]));
        if t[0] == sep {
            lemma_trim_fixed(Seq::<char>::empty());
            assert(q[0] =~= Seq::empty());
        } else {
            let x = q[0];
            assert(x[0] == t[0]);
            assert(trim_start(x) == x);
            let k = lemma_trim_end(x);
            assert(p[0][0] == t[0]);
        }
    }
}

/// The numeral of a number consists of digits and denotes it.
pub proof fn lemma_decimal(n: nat)
    ensures
        decimal(n).len() > 0,
        forall|i: int| 0 <= i < decimal(n).len() ==> is_digit(#[trigger] decimal(n)[i]),
        decimal_value(decimal(n)) == n,
    decreases n,
{
    if n < 10 {
        assert(seq![digit_char(n)].drop_last() =~= Seq::empty());
        assert(decimal_value(Seq::empty()) == 0);
    } else {
        lemma_decimal(n / 10);
        assert(decimal(n).drop_last() =~= decimal(n / 10));
    }
}

/// Writing a number and reading it gives it back.
pub proof fn law_decimal_round_trip(n: nat, max: nat)
    requires
        n <= max,
    ensures
        number_of(decimal(n), max) == Some(n),
{
    lemma_decimal(n);
    assert(is_digit(decimal(n)[0]));
    assert(numeral_digits(decimal(n)) == decimal(n));
}

} // verus!
