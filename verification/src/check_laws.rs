//! What holds of every check and of the report on checks.

use crate::reading::{
    displays, displays_whole, is_blank, is_word, law_decimal_reads, law_fixed_reads,
    lemma_decimal_word, lemma_word, lemma_words_in_field, lemma_words_join, lemma_words_of_spaces,
    words,
};
use crate::selftest::{
    check_text, checks_text, distance, failures, holds, lines_text, self_checks, sha256_blocks,
    signed_fixed, CheckView,
};
use crate::table_laws::{flattened, lemma_blank_words};
use crate::text::{decimal, fixed, spaces, to_left, to_right};
use vstd::prelude::*;

verus! {

/// Of numbers over one denominator, a check holds just where they differ by at most the
/// tolerance.
pub proof fn law_check_decides(name: Seq<char>, got: int, want: int, tolerance: int, den: nat)
    requires
        den > 0,
    ensures
        holds(
            (CheckView {
                name,
                got: (got, den),
                want: (want, den),
                tolerance: (tolerance, den),
            }),
        ) <==> want - tolerance <= got <= want + tolerance,
{
    let d = den as int;
    let gap = if got < want {
        want - got
    } else {
        got - want
    };
    assert(want * d - got * d == (want - got) * d) by (nonlinear_arith);
    assert(got < want ==> got * d < want * d) by (nonlinear_arith)
        requires
            d > 0,
    ;
    assert(got >= want ==> got * d >= want * d) by (nonlinear_arith)
        requires
            d > 0,
    ;
    assert((got - want) * d == got * d - want * d) by (nonlinear_arith);
    assert((gap * d) * d <= tolerance * (d * d) <==> gap <= tolerance) by (nonlinear_arith)
        requires
            d > 0,
    ;
}

/// Whether a check holds does not depend on how its numbers are written as quotients.
pub proof fn law_check_scaled(c: CheckView, i: nat, j: nat, k: nat)
    requires
        i > 0,
        j > 0,
        k > 0,
    ensures
        holds(
            (CheckView {
                name: c.name,
                got: (c.got.0 * i, c.got.1 * i),
                want: (c.want.0 * j, c.want.1 * j),
                tolerance: (c.tolerance.0 * k, c.tolerance.1 * k),
            }),
        ) == holds(c),
{
    let x = c.got.0 * c.want.1;
    let y = c.want.0 * c.got.1;
    let f = (i * j) as int;
    let a = distance(x, y) as int;
    let t1 = c.tolerance.1 as int;
    let r = c.tolerance.0 * (c.got.1 * c.want.1);
    let g0 = c.got.0;
    let g1 = c.got.1 as int;
    let w0 = c.want.0;
    let w1 = c.want.1 as int;
    let t0 = c.tolerance.0;
    assert(f > 0) by (nonlinear_arith)
        requires
            f == i * j,
            i > 0,
            j > 0,
    ;
    assert((g0 * i) * (w1 * j) == (g0 * w1) * f) by (nonlinear_arith)
        requires
            f == i * j,
    ;
    assert((w0 * j) * (g1 * i) == (w0 * g1) * f) by (nonlinear_arith)
        requires
            f == i * j,
    ;
    assert((x < y <==> x * f < y * f) && (y - x) * f == y * f - x * f && (x - y) * f == x * f - y
        * f) by (nonlinear_arith)
        requires
            f > 0,
    ;
    let h = f * k;
    assert(h > 0) by (nonlinear_arith)
        requires
            f > 0,
            k > 0,
            h == f * k,
    ;
    assert((a * f) * (t1 * k) == (a * t1) * h) by (nonlinear_arith)
        requires
            h == f * k,
    ;
    assert((t0 * k) * ((g1 * i) * (w1 * j)) == (t0 * (g1 * w1)) * h) by (nonlinear_arith)
        requires
            h == f * k,
            f == i * j,
    ;
    let b = a * t1;
    assert(b * h <= r * h <==> b <= r) by (nonlinear_arith)
        requires
            h > 0,
    ;
}

/// Whether a text shows a quotient that may be negative, with `places` decimal places.
pub open spec fn displays_signed(s: Seq<char>, num: int, den: int, places: nat) -> bool {
    if num < 0 {
        s.len() > 0 && s[0] == '-' && displays(s.skip(1), -num, den, places)
    } else {
        displays(s, num, den, places)
    }
}

/// A quotient is printed correctly rounded, with a sign just where it is negative.
pub proof fn law_signed_reads(num: int, den: nat, places: nat)
    requires
        den > 0,
    ensures
        displays_signed(signed_fixed(num, den, places), num, den as int, places),
        is_word(signed_fixed(num, den, places)),
{
    let s = signed_fixed(num, den, places);
    if num < 0 {
        let t = fixed((-num) as nat, den, places);
        law_fixed_reads((-num) as nat, den, places);
        assert(s.skip(1) =~= t);
        assert forall|i: int| 0 <= i < s.len() implies !is_blank(#[trigger] s[i]) by {
            if i > 0 {
                assert(s[i] == t[i - 1]);
            }
        }
    } else {
        law_fixed_reads(num as nat, den, places);
    }
}

/// Whether words are those of the line on a check: its name, the number that was computed
/// and the one that is wanted, with six decimal places, and whether it holds.
pub open spec fn check_words(ws: Seq<Seq<char>>, c: CheckView) -> bool {
    exists|x: Seq<char>, y: Seq<char>|
        {
            &&& #[trigger] displays_signed(x, c.got.0, c.got.1 as int, 6)
            &&& #[trigger] displays_signed(y, c.want.0, c.want.1 as int, 6)
            &&& ws == words(c.name) + words(" got "@) + seq![x] + words("  want "@) + seq![
                y,
                if holds(c) {
                    "ok"@
                } else {
                    "FAIL"@
                },
            ]
        }
}

/// The line on a check reads back as the check.
pub proof fn law_check_reads(c: CheckView)
    requires
        c.got.1 > 0,
        c.want.1 > 0,
    ensures
        check_words(words(check_text(c)), c),
        check_text(c).len() > 0,
        is_blank(check_text(c).last()),
{
    let x = signed_fixed(c.got.0, c.got.1, 6);
    let y = signed_fixed(c.want.0, c.want.1, 6);
    let verdict = if holds(c) {
        "ok"@
    } else {
        "FAIL"@
    };
    law_signed_reads(c.got.0, c.got.1, 6);
    law_signed_reads(c.want.0, c.want.1, 6);
    reveal_strlit(" got ");
    reveal_strlit("  want ");
    reveal_strlit("ok");
    reveal_strlit("FAIL");
    reveal_strlit("  ");
    reveal_strlit("\n");
    lemma_blank_words();
    let e = Seq::<Seq<char>>::empty();
    let pad = spaces(24 - c.name.len());
    lemma_words_of_spaces(24 - c.name.len());
    lemma_words_join(c.name, pad);
    assert(words(c.name) + e =~= words(c.name));
    lemma_words_join("  "@, to_left(c.name, 24));
    assert(e + words(c.name) =~= words(c.name));
    let t0 = "  "@ + to_left(c.name, 24);
    let t1 = t0 + " got "@;
    lemma_words_join(t0, " got "@);
    lemma_words_in_field(x, 12);
    lemma_words_in_field(y, 12);
    let t2 = t1 + to_right(x, 12);
    lemma_words_join(t1, to_right(x, 12));
    let t3 = t2 + "  want "@;
    lemma_words_join(t2, "  want "@);
    let t4 = t3 + to_right(y, 12);
    lemma_words_join(t3, to_right(y, 12));
    let t5 = t4 + "  "@;
    lemma_words_join(t4, "  "@);
    assert(words(t4) + e =~= words(t4));
    lemma_word(verdict);
    let t6 = t5 + verdict;
    lemma_words_join(t5, verdict);
    lemma_words_join(t6, "\n"@);
    assert(words(t6) + e =~= words(t6));
    assert(check_text(c) == t6 + "\n"@);
    assert(words(t6) =~= words(c.name) + words(" got "@) + seq![x] + words("  want "@) + seq![
        y,
        verdict,
    ]);
}

/// How many checks fail: none of no checks, one or none of one, and of two lists as many as
/// of both. None fails just where all hold.
pub proof fn law_failures(a: Seq<CheckView>, b: Seq<CheckView>, c: CheckView)
    ensures
        failures(Seq::empty()) == 0,
        failures(seq![c]) == if holds(c) {
            0nat
        } else {
            1nat
        },
        failures(a + b) == failures(a) + failures(b),
        failures(a) <= a.len(),
        failures(a) == 0 <==> forall|i: int| 0 <= i < a.len() ==> holds(#[trigger] a[i]),
    decreases a.len() + b.len(),
{
    assert(seq![c].drop_last() =~= Seq::empty());
    assert(failures(Seq::empty()) == 0);
    if b.len() == 0 {
        assert(a + b =~= a);
    } else {
        law_failures(a, b.drop_last(), c);
        assert((a + b).drop_last() =~= a + b.drop_last());
    }
    if a.len() > 0 {
        let t = a.drop_last();
        if b.len() == 0 {
            law_failures(t, b, c);
        } else {
            law_failures(a, Seq::empty(), c);
        }
        assert forall|i: int| 0 <= i < t.len() implies t[i] == a[i] by {}
        if b.len() == 0 {
            if failures(a) == 0 {
                assert forall|i: int| 0 <= i < a.len() implies holds(#[trigger] a[i]) by {
                    if i < t.len() {
                        assert(holds(t[i]));
                    }
                }
            }
            if forall|i: int| 0 <= i < a.len() ==> holds(#[trigger] a[i]) {
                assert forall|i: int| 0 <= i < t.len() implies holds(#[trigger] t[i]) by {
                    assert(holds(a[i]));
                }
                assert(holds(a[a.len() - 1]));
            }
        }
    }
}

proof fn lemma_lines_words(cs: Seq<CheckView>, x: Seq<Seq<Seq<char>>>)
    requires
        x.len() == cs.len(),
        forall|i: int|
            0 <= i < cs.len() ==> #[trigger] x[i] == words(check_text(cs[i])) && cs[i].got.1 > 0
                && cs[i].want.1 > 0,
    ensures
        words(lines_text(cs)) == flattened(x),
        cs.len() > 0 ==> lines_text(cs).len() > 0 && is_blank(lines_text(cs).last()),
    decreases cs.len(),
{
    if cs.len() > 0 {
        let t = cs.drop_last();
        let y = x.drop_last();
        assert forall|i: int| 0 <= i < t.len() implies #[trigger] y[i] == words(
            check_text(t[i]),
        ) && t[i].got.1 > 0 && t[i].want.1 > 0 by {
            assert(y[i] == x[i]);
        }
        lemma_lines_words(t, y);
        assert(x[cs.len() - 1] == words(check_text(cs.last())));
        law_check_reads(cs.last());
        if t.len() == 0 {
            assert(lines_text(t) =~= Seq::empty());
        }
        lemma_words_join(lines_text(t), check_text(cs.last()));
        assert((lines_text(t) + check_text(cs.last())).last() == check_text(cs.last()).last());
    }
}

/// The report on checks has one line for each, in order, and closes with the number of those
/// that fail, or says that all passed just where none fails.
pub proof fn law_checks_read(cs: Seq<CheckView>)
    requires
        forall|i: int| 0 <= i < cs.len() ==> (#[trigger] cs[i]).got.1 > 0 && cs[i].want.1 > 0,
    ensures
        exists|x: Seq<Seq<Seq<char>>>|
            {
                &&& x.len() == cs.len()
                &&& forall|i: int| 0 <= i < cs.len() ==> check_words(#[trigger] x[i], cs[i])
                &&& words(checks_text(cs)) == #[trigger] flattened(x) + (if failures(cs) == 0 {
                    words("all self-tests passed\n"@)
                } else {
                    seq![decimal(failures(cs))] + words(" self-test(s) FAILED\n"@)
                })
            },
        displays_whole(decimal(failures(cs)), failures(cs) as int),
{
    let x = Seq::new(cs.len(), |i: int| words(check_text(cs[i])));
    assert forall|i: int| 0 <= i < cs.len() implies check_words(#[trigger] x[i], cs[i]) by {
        assert(cs[i].got.1 > 0);
        law_check_reads(cs[i]);
    }
    assert forall|i: int| 0 <= i < cs.len() implies #[trigger] x[i] == words(check_text(cs[i]))
        && cs[i].got.1 > 0 && cs[i].want.1 > 0 by {
        assert(cs[i].got.1 > 0);
    }
    lemma_lines_words(cs, x);
    lemma_blank_words();
    let e = Seq::<Seq<char>>::empty();
    let body = lines_text(cs) + "\n"@;
    lemma_words_join(lines_text(cs), "\n"@);
    assert(words(lines_text(cs)) + e =~= words(lines_text(cs)));
    assert(is_blank(body.last()));
    law_decimal_reads(failures(cs));
    if failures(cs) == 0 {
        lemma_words_join(body, "all self-tests passed\n"@);
    } else {
        let d = decimal(failures(cs));
        reveal_strlit(" self-test(s) FAILED\n");
        lemma_decimal_word(failures(cs));
        lemma_word(d);
        lemma_words_join(d, " self-test(s) FAILED\n"@);
        lemma_words_join(body, d + " self-test(s) FAILED\n"@);
    }
}

/// There are twenty-four checks, and none tolerates more than a billionth.
pub proof fn law_self_checks_are_narrow()
    ensures
        self_checks().len() == 24,
        forall|i: int|
            0 <= i < 24 ==> 0 <= (#[trigger] self_checks()[i]).tolerance.0 * 1_000_000_000
                <= self_checks()[i].tolerance.1,
{
}

/// The number of blocks of a message is the least whose bytes hold the message, one byte
/// more and its length.
pub proof fn law_sha256_blocks(l: nat)
    ensures
        64 * (sha256_blocks(l) - 1) < l + 9 <= 64 * sha256_blocks(l),
{
}

} // verus!
