//! What a reader sees in the reports.

use crate::binary_log::LOG_ONE;
use crate::leakage::{greatest, leakage_of, lemma_masses, secret_mass, shannon_mass, LeakageView};
use crate::laws::{law_leakage_bounds, lemma_greatest_attained, lemma_greatest_bounds};
use crate::csv::Row;
use crate::partition_laws::law_class_count;
use crate::partition::{
    class_weight, cycle_values, increasing, lemma_class_absent, lemma_cycle_values, max_weight,
    occurs, partition_of, total_weight, PartitionView,
};
use crate::reading::{
    displays, displays_whole, is_blank, is_word, labelled, law_decimal_reads, law_fixed_reads,
    law_fixed_scaled, lemma_decimal_word, lemma_labelled, lemma_word, lemma_words_in_field,
    lemma_words_join, words,
};
use crate::report::{
    bare_rows, bits_line, bits_text, count_values, counts_text, guess_text, largest_text,
    leakage_text, oblivious_text, percent_text, revealed_text, share_text, unbounded_largest_text,
    unbounded_leakage_text, unbounded_oblivious_text,
};
use crate::text::{decimal, fixed, low_digits, rounded, spaces, to_right};
use vstd::arithmetic::power::{lemma_pow1, lemma_pow_adds, pow};
use vstd::prelude::*;

verus! {

// ---------------------------------------------------------------------------
// The report on a sweep
// ---------------------------------------------------------------------------

/// Whether a weight is that of the largest class: no class weighs more, and one weighs this.
pub open spec fn is_largest_class(rows: Seq<(u64, nat)>, g: nat) -> bool {
    &&& forall|c: u64| #[trigger] class_weight(rows, c) <= g
    &&& exists|c: u64| occurs(rows, c) && #[trigger] class_weight(rows, c) == g
}

/// Whether ten printed numbers are those of a sweep: its secrets, its distinct cycle counts,
/// the entropy of the secret, the two leakages and the entropy that remains, how likely a
/// single guess succeeds with the cycle count and without it, the largest class as a count or
/// as a share, and the share of the entropy that is revealed.
pub open spec fn report_figures(
    x: Seq<Seq<char>>,
    rows: Seq<(u64, nat)>,
    weighted: bool,
    g: nat,
) -> bool {
    let p = partition_of(rows);
    let l = leakage_of(p);
    let total = total_weight(rows) as int;
    let one = LOG_ONE as int;
    &&& x.len() == 10
    &&& displays_whole(x[0], rows.len() as int)
    &&& displays_whole(x[1], cycle_values(rows).len() as int)
    &&& displays(x[2], l.secret_bits, one, 4)
    &&& displays(x[3], l.shannon_bits, one, 4)
    &&& displays(x[4], l.min_entropy_bits, one, 4)
    &&& displays(x[5], l.residual_bits, one, 4)
    &&& displays(x[6], 100int * l.guess_probability.0, total, 4)
    &&& displays(x[7], 100int * max_weight(rows), total, 4)
    &&& is_largest_class(rows, g)
    &&& if weighted {
        displays(x[8], 100int * g, total, 2)
    } else {
        displays_whole(x[8], g as int)
    }
    &&& if secret_mass(p) > 0 {
        displays(x[9], 100int * shannon_mass(p), secret_mass(p), 1)
    } else {
        displays(x[9], 0, 1, 1)
    }
}

/// The words of a report with ten given numbers; the closing lines stand where there is a
/// single cycle count.
pub open spec fn report_words(x: Seq<Seq<char>>, weighted: bool, single: bool) -> Seq<Seq<char>> {
    (labelled("  secrets sampled          "@, x[0], "\n"@) + labelled(
        "  distinct cycle counts    "@,
        x[1],
        "\n\n"@,
    )) + labelled("  H(S)   secret entropy    "@, x[2], " bits\n"@) + labelled(
        "  I(S;O) leaked (Shannon)  "@,
        x[3],
        " bits   <- average bits revealed\n"@,
    ) + labelled(
        "  min-entropy leakage      "@,
        x[4],
        " bits   <- guessing advantage\n"@,
    ) + labelled("  H(S|O) remaining         "@, x[5], " bits\n\n"@) + (labelled(
        "  single-guess success     "@,
        x[6].push('%'),
        "  (vs "@,
    ) + (seq![x[7].push('%')] + words(" with no observation)\n"@))) + (if weighted {
        labelled(
            "  largest identical class  "@,
            x[8].push('%'),
            " of prior mass shares one cycle count\n"@,
        )
    } else {
        labelled("  largest identical class  "@, x[8], " secrets share one cycle count\n"@)
    }) + labelled(
        "\n  => the cycle count reveals "@,
        x[9].push('%'),
        " of the secret's entropy.\n"@,
    ) + (if single {
        words("     All sampled secrets produce an identical cycle count: no leakage\n"@) + words(
            "     through this observable, over this sample.\n"@,
        )
    } else {
        Seq::empty()
    })
}

/// Whether a text reads as the report on a sweep.
pub open spec fn reads_as_report(text: Seq<char>, rows: Seq<(u64, nat)>, weighted: bool) -> bool {
    exists|x: Seq<Seq<char>>, g: nat| #[trigger]
        report_figures(x, rows, weighted, g) && words(text) == report_words(
            x,
            weighted,
            cycle_values(rows).len() == 1,
        )
}

proof fn lemma_counts_words(a: nat, b: nat)
    ensures
        words(counts_text(a, b)) == labelled("  secrets sampled          "@, decimal(a), "\n"@)
            + labelled("  distinct cycle counts    "@, decimal(b), "\n\n"@),
        counts_text(a, b).len() > 0,
        is_blank(counts_text(a, b).last()),
{
    reveal_strlit("  secrets sampled          ");
    reveal_strlit("  distinct cycle counts    ");
    reveal_strlit("\n");
    reveal_strlit("\n\n");
    let la = "  secrets sampled          "@;
    let lb = "  distinct cycle counts    "@;
    lemma_decimal_word(a);
    lemma_decimal_word(b);
    assert(spaces(0) =~= Seq::empty());
    assert(spaces(0) + decimal(a) =~= decimal(a));
    assert(spaces(0) + decimal(b) =~= decimal(b));
    lemma_labelled(la, 0, decimal(a), "\n"@);
    lemma_labelled(lb, 0, decimal(b), "\n\n"@);
    let one = la + decimal(a) + "\n"@;
    let two = lb + decimal(b) + "\n\n"@;
    lemma_words_join(one, two);
    assert(counts_text(a, b) =~= one + two);
}

proof fn lemma_bits_words(label: Seq<char>, bits: nat, tail: Seq<char>)
    requires
        label.len() > 0,
        is_blank(label.last()),
        tail.len() > 0,
        is_blank(tail[0]),
        is_blank(tail.last()),
    ensures
        words(bits_line(label, bits, tail)) == labelled(label, bits_text(bits), tail),
        bits_line(label, bits, tail).len() > 0,
        is_blank(bits_line(label, bits, tail).last()),
        displays(bits_text(bits), bits as int, LOG_ONE as int, 4),
{
    let x = bits_text(bits);
    law_fixed_reads(bits, LOG_ONE as nat, 4);
    lemma_labelled(label, 9 - x.len(), x, tail);
}

proof fn lemma_percent_word(x: Seq<char>)
    requires
        is_word(x),
    ensures
        is_word(x.push('%')),
{
}

proof fn lemma_guess_words(l: LeakageView, p: PartitionView)
    requires
        p.total > 0,
        l.guess_probability.1 > 0,
    ensures
        ({
            let x = percent_text(l.guess_probability.0, l.guess_probability.1, 4);
            let y = percent_text(p.max_secret, p.total, 4);
            &&& words(guess_text(l, p)) == labelled(
                "  single-guess success     "@,
                x.push('%'),
                "  (vs "@,
            ) + (seq![y.push('%')] + words(" with no observation)\n"@))
            &&& guess_text(l, p).len() > 0
            &&& is_blank(guess_text(l, p).last())
            &&& displays(x, 100int * l.guess_probability.0, l.guess_probability.1 as int, 4)
            &&& displays(y, 100int * p.max_secret, p.total as int, 4)
        }),
{
    let x = percent_text(l.guess_probability.0, l.guess_probability.1, 4);
    let y = percent_text(p.max_secret, p.total, 4);
    law_fixed_reads(100 * l.guess_probability.0, l.guess_probability.1, 4);
    law_fixed_reads(100 * p.max_secret, p.total, 4);
    reveal_strlit("  single-guess success     ");
    reveal_strlit("  (vs ");
    reveal_strlit("%  (vs ");
    reveal_strlit(" with no observation)\n");
    reveal_strlit("% with no observation)\n");
    lemma_percent_word(x);
    lemma_percent_word(y);
    let label = "  single-guess success     "@;
    let n = 9 - x.len();
    lemma_labelled(label, n, x.push('%'), "  (vs "@);
    let one = label + (spaces(n) + x.push('%')) + "  (vs "@;
    let two = y.push('%') + " with no observation)\n"@;
    lemma_word(y.push('%'));
    lemma_words_join(y.push('%'), " with no observation)\n"@);
    lemma_words_join(one, two);
    assert(guess_text(l, p) =~= one + two);
}

proof fn lemma_largest_words(l: LeakageView, p: PartitionView, uniform: bool)
    requires
        p.total > 0,
    ensures
        ({
            let text = "  largest identical class  "@ + largest_text(l, p, uniform);
            let g = l.largest_class_weight;
            &&& uniform ==> words(text) == labelled(
                "  largest identical class  "@,
                decimal(g),
                " secrets share one cycle count\n"@,
            )
            &&& !uniform ==> words(text) == labelled(
                "  largest identical class  "@,
                percent_text(g, p.total, 2).push('%'),
                " of prior mass shares one cycle count\n"@,
            )
            &&& text.len() > 0
            &&& is_blank(text.last())
            &&& displays_whole(decimal(g), g as int)
            &&& displays(percent_text(g, p.total, 2), 100int * g, p.total as int, 2)
        }),
{
    let g = l.largest_class_weight;
    let label = "  largest identical class  "@;
    reveal_strlit("  largest identical class  ");
    law_decimal_reads(g);
    law_fixed_reads(100 * g, p.total, 2);
    if uniform {
        reveal_strlit(" secrets share one cycle count\n");
        lemma_decimal_word(g);
        let x = fixed(g, 1, 0);
        lemma_whole(g);
        let n = 9 - x.len();
        lemma_labelled(label, n, x, " secrets share one cycle count\n"@);
        assert(label + largest_text(l, p, uniform) =~= label + (spaces(n) + x)
            + " secrets share one cycle count\n"@);
    } else {
        reveal_strlit("% of prior mass shares one cycle count\n");
        reveal_strlit(" of prior mass shares one cycle count\n");
        let x = percent_text(g, p.total, 2);
        lemma_percent_word(x);
        let n = 8 - x.len();
        lemma_labelled(label, n, x.push('%'), " of prior mass shares one cycle count\n"@);
        assert(label + largest_text(l, p, uniform) =~= label + (spaces(n) + x.push('%'))
            + " of prior mass shares one cycle count\n"@);
    }
}

/// A whole number is printed as itself also as a quotient by one.
proof fn lemma_whole(n: nat)
    ensures
        fixed(n, 1, 0) == decimal(n),
{
    vstd::arithmetic::power::lemma_pow0(10);
    assert(n * 1 == n);
    assert(n / 1 == n && n % 1 == 0);
}

proof fn lemma_share_words(l: LeakageView)
    ensures
        ({
            let x = revealed_text(l);
            &&& words(share_text(l)) == labelled(
                "\n  => the cycle count reveals "@,
                x.push('%'),
                " of the secret's entropy.\n"@,
            )
            &&& share_text(l).len() > 0
            &&& is_blank(share_text(l).last())
            &&& l.revealed.1 > 0 ==> displays(x, 100int * l.revealed.0, l.revealed.1 as int, 1)
            &&& l.revealed.1 == 0 ==> displays(x, 0, 1, 1)
        }),
{
    let x = revealed_text(l);
    if l.revealed.1 > 0 {
        law_fixed_reads(100 * l.revealed.0, l.revealed.1, 1);
    } else {
        law_fixed_reads(0, 1, 1);
    }
    reveal_strlit("\n  => the cycle count reveals ");
    reveal_strlit(" of the secret's entropy.\n");
    reveal_strlit("% of the secret's entropy.\n");
    lemma_percent_word(x);
    let label = "\n  => the cycle count reveals "@;
    lemma_labelled(label, 0, x.push('%'), " of the secret's entropy.\n"@);
    assert(spaces(0) =~= Seq::empty());
    assert(share_text(l) =~= label + (spaces(0) + x.push('%')) + " of the secret's entropy.\n"@);
}

proof fn lemma_oblivious_words(l: LeakageView)
    ensures
        words(oblivious_text(l)) == if l.num_classes == 1 {
            words("     All sampled secrets produce an identical cycle count: no leakage\n"@)
                + words("     through this observable, over this sample.\n"@)
        } else {
            Seq::empty()
        },
{
    if l.num_classes == 1 {
        reveal_strlit("     through this observable, over this sample.\n");
        lemma_words_join(
            "     All sampled secrets produce an identical cycle count: no leakage\n"@,
            "     through this observable, over this sample.\n"@,
        );
    }
}

/// The ten numbers of a report, as they are printed.
spec fn printed(l: LeakageView, p: PartitionView, weighted: bool) -> Seq<Seq<char>> {
    seq![
        decimal(p.secrets),
        decimal(l.num_classes),
        bits_text(l.secret_bits as nat),
        bits_text(l.shannon_bits as nat),
        bits_text(l.min_entropy_bits as nat),
        bits_text(l.residual_bits as nat),
        percent_text(l.guess_probability.0, l.guess_probability.1, 4),
        percent_text(p.max_secret, p.total, 4),
        if weighted {
            percent_text(l.largest_class_weight, p.total, 2)
        } else {
            decimal(l.largest_class_weight)
        },
        revealed_text(l),
    ]
}

proof fn lemma_four_lines(l: LeakageView)
    ensures
        ({
            let a = bits_line("  H(S)   secret entropy    "@, l.secret_bits as nat, " bits\n"@);
            let b = bits_line(
                "  I(S;O) leaked (Shannon)  "@,
                l.shannon_bits as nat,
                " bits   <- average bits revealed\n"@,
            );
            let c = bits_line(
                "  min-entropy leakage      "@,
                l.min_entropy_bits as nat,
                " bits   <- guessing advantage\n"@,
            );
            let d = bits_line("  H(S|O) remaining         "@, l.residual_bits as nat, " bits\n\n"@);
            &&& a.len() > 0 && is_blank(a.last())
            &&& b.len() > 0 && is_blank(b.last())
            &&& c.len() > 0 && is_blank(c.last())
            &&& d.len() > 0 && is_blank(d.last())
            &&& words(a) == labelled(
                "  H(S)   secret entropy    "@,
                bits_text(l.secret_bits as nat),
                " bits\n"@,
            )
            &&& words(b) == labelled(
                "  I(S;O) leaked (Shannon)  "@,
                bits_text(l.shannon_bits as nat),
                " bits   <- average bits revealed\n"@,
            )
            &&& words(c) == labelled(
                "  min-entropy leakage      "@,
                bits_text(l.min_entropy_bits as nat),
                " bits   <- guessing advantage\n"@,
            )
            &&& words(d) == labelled(
                "  H(S|O) remaining         "@,
                bits_text(l.residual_bits as nat),
                " bits\n\n"@,
            )
        }),
{
    assert("  H(S)   secret entropy    "@.last() == ' ' && "  H(S)   secret entropy    "@.len() > 0)
        by {
        reveal_strlit("  H(S)   secret entropy    ");
    }
    assert("  I(S;O) leaked (Shannon)  "@.last() == ' ' && "  I(S;O) leaked (Shannon)  "@.len() > 0)
        by {
        reveal_strlit("  I(S;O) leaked (Shannon)  ");
    }
    assert("  min-entropy leakage      "@.last() == ' ' && "  min-entropy leakage      "@.len() > 0)
        by {
        reveal_strlit("  min-entropy leakage      ");
    }
    assert("  H(S|O) remaining         "@.last() == ' ' && "  H(S|O) remaining         "@.len() > 0)
        by {
        reveal_strlit("  H(S|O) remaining         ");
    }
    assert(" bits\n"@[0] == ' ' && " bits\n"@.last() == '\n' && " bits\n"@.len() > 0) by {
        reveal_strlit(" bits\n");
    }
    assert(" bits\n\n"@[0] == ' ' && " bits\n\n"@.last() == '\n' && " bits\n\n"@.len() > 0) by {
        reveal_strlit(" bits\n\n");
    }
    assert({
        let s = " bits   <- average bits revealed\n"@;
        s[0] == ' ' && s.last() == '\n' && s.len() > 0
    }) by {
        reveal_strlit(" bits   <- average bits revealed\n");
    }
    assert({
        let s = " bits   <- guessing advantage\n"@;
        s[0] == ' ' && s.last() == '\n' && s.len() > 0
    }) by {
        reveal_strlit(" bits   <- guessing advantage\n");
    }
    lemma_bits_words("  H(S)   secret entropy    "@, l.secret_bits as nat, " bits\n"@);
    lemma_bits_words(
        "  I(S;O) leaked (Shannon)  "@,
        l.shannon_bits as nat,
        " bits   <- average bits revealed\n"@,
    );
    lemma_bits_words(
        "  min-entropy leakage      "@,
        l.min_entropy_bits as nat,
        " bits   <- guessing advantage\n"@,
    );
    lemma_bits_words("  H(S|O) remaining         "@, l.residual_bits as nat, " bits\n\n"@);
}

/// The words of two texts, the first of which ends with a blank.
proof fn lemma_two(a: Seq<char>, b: Seq<char>)
    requires
        a.len() > 0,
        is_blank(a.last()),
        b.len() > 0,
        is_blank(b.last()),
    ensures
        words(a + b) == words(a) + words(b),
        (a + b).len() > 0,
        is_blank((a + b).last()),
{
    lemma_words_join(a, b);
    assert((a + b).last() == b.last());
}

proof fn lemma_nine(
    a: Seq<char>,
    b: Seq<char>,
    c: Seq<char>,
    d: Seq<char>,
    e: Seq<char>,
    f: Seq<char>,
    g: Seq<char>,
    h: Seq<char>,
    i: Seq<char>,
)
    requires
        a.len() > 0 && is_blank(a.last()),
        b.len() > 0 && is_blank(b.last()),
        c.len() > 0 && is_blank(c.last()),
        d.len() > 0 && is_blank(d.last()),
        e.len() > 0 && is_blank(e.last()),
        f.len() > 0 && is_blank(f.last()),
        g.len() > 0 && is_blank(g.last()),
        h.len() > 0 && is_blank(h.last()),
    ensures
        words(a + b + c + d + e + f + g + h + i) == words(a) + words(b) + words(c) + words(d)
            + words(e) + words(f) + words(g) + words(h) + words(i),
{
    lemma_two(a, b);
    lemma_two(a + b, c);
    lemma_two(a + b + c, d);
    lemma_two(a + b + c + d, e);
    lemma_two(a + b + c + d + e, f);
    lemma_two(a + b + c + d + e + f, g);
    lemma_two(a + b + c + d + e + f + g, h);
    lemma_words_join(a + b + c + d + e + f + g + h, i);
}

/// The nine parts of a report.
spec fn report_parts(l: LeakageView, p: PartitionView, weighted: bool) -> Seq<Seq<char>> {
    seq![
        counts_text(p.secrets, l.num_classes),
        bits_line("  H(S)   secret entropy    "@, l.secret_bits as nat, " bits\n"@),
        bits_line(
            "  I(S;O) leaked (Shannon)  "@,
            l.shannon_bits as nat,
            " bits   <- average bits revealed\n"@,
        ),
        bits_line(
            "  min-entropy leakage      "@,
            l.min_entropy_bits as nat,
            " bits   <- guessing advantage\n"@,
        ),
        bits_line("  H(S|O) remaining         "@, l.residual_bits as nat, " bits\n\n"@),
        guess_text(l, p),
        "  largest identical class  "@ + largest_text(l, p, !weighted),
        share_text(l),
        oblivious_text(l),
    ]
}

/// The words of the nine parts of a report.
spec fn part_words(x: Seq<Seq<char>>, weighted: bool, single: bool) -> Seq<Seq<Seq<char>>> {
    seq![
        labelled("  secrets sampled          "@, x[0], "\n"@) + labelled(
            "  distinct cycle counts    "@,
            x[1],
            "\n\n"@,
        ),
        labelled("  H(S)   secret entropy    "@, x[2], " bits\n"@),
        labelled(
            "  I(S;O) leaked (Shannon)  "@,
            x[3],
            " bits   <- average bits revealed\n"@,
        ),
        labelled("  min-entropy leakage      "@, x[4], " bits   <- guessing advantage\n"@),
        labelled("  H(S|O) remaining         "@, x[5], " bits\n\n"@),
        labelled("  single-guess success     "@, x[6].push('%'), "  (vs "@) + (seq![x[7].push('%')]
            + words(" with no observation)\n"@)),
        if weighted {
            labelled(
                "  largest identical class  "@,
                x[8].push('%'),
                " of prior mass shares one cycle count\n"@,
            )
        } else {
            labelled("  largest identical class  "@, x[8], " secrets share one cycle count\n"@)
        },
        labelled(
            "\n  => the cycle count reveals "@,
            x[9].push('%'),
            " of the secret's entropy.\n"@,
        ),
        if single {
            words("     All sampled secrets produce an identical cycle count: no leakage\n"@)
                + words("     through this observable, over this sample.\n"@)
        } else {
            Seq::empty()
        },
    ]
}

#[verifier::spinoff_prover]
#[verifier::rlimit(40)]
proof fn lemma_part_words(l: LeakageView, p: PartitionView, weighted: bool)
    requires
        p.total > 0,
        l.guess_probability.1 > 0,
    ensures
        forall|i: int|
            0 <= i < 9 ==> words(#[trigger] report_parts(l, p, weighted)[i]) == part_words(
                printed(l, p, weighted),
                weighted,
                l.num_classes == 1,
            )[i],
        forall|i: int|
            0 <= i < 8 ==> (#[trigger] report_parts(l, p, weighted)[i]).len() > 0 && is_blank(
                report_parts(l, p, weighted)[i].last(),
            ),
{
    lemma_counts_words(p.secrets, l.num_classes);
    lemma_four_lines(l);
    lemma_guess_words(l, p);
    lemma_largest_words(l, p, !weighted);
    lemma_share_words(l);
    lemma_oblivious_words(l);
}

proof fn lemma_report_words(l: LeakageView, p: PartitionView, weighted: bool)
    requires
        p.total > 0,
        l.guess_probability.1 > 0,
    ensures
        words(leakage_text(l, p, !weighted)) == report_words(
            printed(l, p, weighted),
            weighted,
            l.num_classes == 1,
        ),
{
    let t = report_parts(l, p, weighted);
    let w = part_words(printed(l, p, weighted), weighted, l.num_classes == 1);
    lemma_part_words(l, p, weighted);
    lemma_nine(t[0], t[1], t[2], t[3], t[4], t[5], t[6], t[7], t[8]);
    assert(words(t[0]) == w[0] && words(t[1]) == w[1] && words(t[2]) == w[2]);
    assert(words(t[3]) == w[3] && words(t[4]) == w[4] && words(t[5]) == w[5]);
    assert(words(t[6]) == w[6] && words(t[7]) == w[7] && words(t[8]) == w[8]);
}

/// No class of a sweep weighs more than its largest class, and one of its cycle counts has
/// a class of just that weight.
pub proof fn law_largest_class(rows: Seq<(u64, nat)>)
    requires
        total_weight(rows) > 0,
    ensures
        is_largest_class(rows, leakage_of(partition_of(rows)).largest_class_weight),
{
    let p = partition_of(rows);
    let g = greatest(p.weights);
    lemma_cycle_values(rows);
    let vals = cycle_values(rows);
    assert(rows.len() > 0);
    assert(occurs(rows, rows[0].0));
    assert(vals.contains(rows[0].0));
    assert(vals.len() > 0);
    assert(p.weights.len() == vals.len());
    assert forall|c: u64| #[trigger] class_weight(rows, c) <= g by {
        if occurs(rows, c) {
            assert(vals.contains(c));
            let i = vals.index_of(c);
            assert(p.weights[i] == class_weight(rows, c));
            lemma_greatest_bounds(p.weights, i);
        } else {
            lemma_class_absent(rows, c);
        }
    }
    lemma_greatest_attained(p.weights);
    let i = p.weights.index_of(g);
    let c = vals[i];
    assert(vals.contains(c));
    assert(occurs(rows, c));
    assert(class_weight(rows, c) == g);
}

/// The report on a sweep reads as such: each of its numbers, read back from the words of the
/// text, is the quantity of the sweep that its label says, correctly rounded.
pub proof fn law_report_reads(rows: Seq<(u64, nat)>, weighted: bool)
    requires
        total_weight(rows) > 0,
    ensures
        reads_as_report(
            leakage_text(leakage_of(partition_of(rows)), partition_of(rows), !weighted),
            rows,
            weighted,
        ),
{
    let (x, g) = lemma_report_printed(rows, weighted);
    assert(report_figures(x, rows, weighted, g));
}

/// The numbers of a report, with the weight of the largest class.
pub proof fn lemma_report_printed(rows: Seq<(u64, nat)>, weighted: bool) -> (r: (
    Seq<Seq<char>>,
    nat,
))
    requires
        total_weight(rows) > 0,
    ensures
        ({
            let p = partition_of(rows);
            let l = leakage_of(p);
            &&& report_figures(r.0, rows, weighted, r.1)
            &&& words(leakage_text(l, p, !weighted)) == report_words(
                r.0,
                weighted,
                cycle_values(rows).len() == 1,
            )
            &&& r.0[3] == bits_text(l.shannon_bits as nat)
            &&& r.0[4] == bits_text(l.min_entropy_bits as nat)
        }),
{
    let p = partition_of(rows);
    let l = leakage_of(p);
    let x = printed(l, p, weighted);
    let g = l.largest_class_weight;
    law_largest_class(rows);
    lemma_masses(rows);
    law_leakage_bounds(rows);
    lemma_report_words(l, p, weighted);
    law_decimal_reads(p.secrets);
    law_decimal_reads(l.num_classes);
    law_fixed_reads(l.secret_bits as nat, LOG_ONE as nat, 4);
    law_fixed_reads(l.shannon_bits as nat, LOG_ONE as nat, 4);
    law_fixed_reads(l.min_entropy_bits as nat, LOG_ONE as nat, 4);
    law_fixed_reads(l.residual_bits as nat, LOG_ONE as nat, 4);
    lemma_guess_words(l, p);
    lemma_largest_words(l, p, !weighted);
    lemma_share_words(l);
    (x, g)
}

/// Where all secrets take the same number of cycles, a weighted report gives the share of
/// the largest class as all of the prior.
pub proof fn law_constant_share(rows: Seq<(u64, nat)>)
    requires
        total_weight(rows) > 0,
        forall|i: int, j: int|
            0 <= i < rows.len() && 0 <= j < rows.len() ==> (#[trigger] rows[i]).0 == (
            #[trigger] rows[j]).0,
    ensures
        words(
            largest_text(leakage_of(partition_of(rows)), partition_of(rows), false),
        )[0] == "100.00%"@,
{
    let p = partition_of(rows);
    let l = leakage_of(p);
    let w = total_weight(rows);
    let c = rows[0].0;
    lemma_one_class(rows, c);
    law_largest_class(rows);
    let d = choose|d: u64| occurs(rows, d) && class_weight(rows, d) == l.largest_class_weight;
    let i = choose|i: int| 0 <= i < rows.len() && (#[trigger] rows[i]).0 == d;
    assert(rows[i].0 == rows[0].0);
    assert(l.largest_class_weight == w);
    law_fixed_scaled(100, 1, 2, w);
    let x = percent_text(w, w, 2);
    assert(1 * w == w);
    assert(x == fixed(100, 1, 2));
    lemma_hundred();
    law_fixed_reads(100 * w, w, 2);
    reveal_strlit("% of prior mass shares one cycle count\n");
    reveal_strlit(" of prior mass shares one cycle count\n");
    reveal_strlit("100.00%");
    let rest = " of prior mass shares one cycle count\n"@;
    let y = x.push('%');
    lemma_percent_word(x);
    assert(y =~= "100.00%"@);
    lemma_words_in_field(y, 9);
    lemma_words_join(to_right(y, 9), rest);
    assert(largest_text(l, p, false) =~= to_right(y, 9) + rest);
}

proof fn lemma_hundred()
    ensures
        fixed(100, 1, 2) == seq!['1', '0', '0', '.', '0', '0'],
{
    lemma_pow1(10);
    lemma_pow_adds(10, 1, 1);
    let unit = pow(10, 2) as nat;
    assert(unit == 100);
    let q = rounded(100 * unit, 1);
    assert(q == 10000) by {
        assert(10000nat / 1 == 10000 && 10000nat % 1 == 0);
    }
    assert(q / unit == 100);
    let whole = decimal(100);
    assert(whole =~= seq!['1', '0', '0']) by {
        reveal_with_fuel(decimal, 4);
    }
    let part = low_digits(q, 2);
    assert(part =~= seq!['0', '0']) by {
        reveal_with_fuel(low_digits, 3);
    }
    assert(fixed(100, 1, 2) == whole.push('.') + part);
    assert(whole.push('.') + part =~= seq!['1', '0', '0', '.', '0', '0']);
}

proof fn lemma_one_class(rows: Seq<(u64, nat)>, c: u64)
    requires
        forall|i: int| 0 <= i < rows.len() ==> (#[trigger] rows[i]).0 == c,
    ensures
        class_weight(rows, c) == total_weight(rows),
    decreases rows.len(),
{
    if rows.len() > 0 {
        let t = rows.drop_last();
        assert forall|i: int| 0 <= i < t.len() implies (#[trigger] t[i]).0 == c by {
            assert(t[i] == rows[i]);
        }
        lemma_one_class(t, c);
        assert(rows[rows.len() - 1].0 == c);
    }
}

// ---------------------------------------------------------------------------
// The report on a sweep with an infinite weight
// ---------------------------------------------------------------------------

proof fn lemma_unbounded_bits()
    ensures
        ({
            let a = "  H(S)   secret entropy          NaN bits\n"@;
            let b = "  I(S;O) leaked (Shannon)     0.0000 bits   <- average bits revealed\n"@;
            &&& words(a) == labelled("  H(S)   secret entropy    "@, "NaN"@, " bits\n"@)
            &&& words(b) == labelled(
                "  I(S;O) leaked (Shannon)  "@,
                "0.0000"@,
                " bits   <- average bits revealed\n"@,
            )
            &&& a.len() > 0 && is_blank(a.last())
            &&& b.len() > 0 && is_blank(b.last())
        }),
{
    reveal_strlit("NaN");
    reveal_strlit("0.0000");
    assert("NaN"@ =~= seq!['N', 'a', 'N']);
    assert("0.0000"@ =~= seq!['0', '.', '0', '0', '0', '0']);
    assert(is_word("NaN"@));
    assert(is_word("0.0000"@));
    assert({
        let a = "  H(S)   secret entropy          NaN bits\n"@;
        &&& words(a) == labelled("  H(S)   secret entropy    "@, "NaN"@, " bits\n"@)
        &&& a.len() > 0 && is_blank(a.last())
    }) by {
        reveal_strlit("  H(S)   secret entropy          NaN bits\n");
        reveal_strlit("  H(S)   secret entropy    ");
        reveal_strlit(" bits\n");
        let s = "  H(S)   secret entropy    "@ + (spaces(6) + "NaN"@) + " bits\n"@;
        lemma_labelled("  H(S)   secret entropy    "@, 6, "NaN"@, " bits\n"@);
        assert("  H(S)   secret entropy          NaN bits\n"@ =~= s);
    }
    assert({
        let b = "  I(S;O) leaked (Shannon)     0.0000 bits   <- average bits revealed\n"@;
        &&& words(b) == labelled(
            "  I(S;O) leaked (Shannon)  "@,
            "0.0000"@,
            " bits   <- average bits revealed\n"@,
        )
        &&& b.len() > 0 && is_blank(b.last())
    }) by {
        reveal_strlit("  I(S;O) leaked (Shannon)     0.0000 bits   <- average bits revealed\n");
        reveal_strlit("  I(S;O) leaked (Shannon)  ");
        reveal_strlit(" bits   <- average bits revealed\n");
        let label = "  I(S;O) leaked (Shannon)  "@;
        let tail = " bits   <- average bits revealed\n"@;
        lemma_labelled(label, 3, "0.0000"@, tail);
        assert("  I(S;O) leaked (Shannon)     0.0000 bits   <- average bits revealed\n"@ =~= label
            + (spaces(3) + "0.0000"@) + tail);
    }
}

proof fn lemma_unbounded_more_bits()
    ensures
        ({
            let a = "  min-entropy leakage         0.0000 bits   <- guessing advantage\n"@;
            let b = "  H(S|O) remaining            0.0000 bits\n\n"@;
            &&& words(a) == labelled(
                "  min-entropy leakage      "@,
                "0.0000"@,
                " bits   <- guessing advantage\n"@,
            )
            &&& words(b) == labelled("  H(S|O) remaining         "@, "0.0000"@, " bits\n\n"@)
            &&& a.len() > 0 && is_blank(a.last())
            &&& b.len() > 0 && is_blank(b.last())
        }),
{
    reveal_strlit("0.0000");
    assert("0.0000"@ =~= seq!['0', '.', '0', '0', '0', '0']);
    assert(is_word("0.0000"@));
    assert({
        let a = "  min-entropy leakage         0.0000 bits   <- guessing advantage\n"@;
        &&& words(a) == labelled(
            "  min-entropy leakage      "@,
            "0.0000"@,
            " bits   <- guessing advantage\n"@,
        )
        &&& a.len() > 0 && is_blank(a.last())
    }) by {
        reveal_strlit("  min-entropy leakage         0.0000 bits   <- guessing advantage\n");
        reveal_strlit("  min-entropy leakage      ");
        reveal_strlit(" bits   <- guessing advantage\n");
        let label = "  min-entropy leakage      "@;
        let tail = " bits   <- guessing advantage\n"@;
        lemma_labelled(label, 3, "0.0000"@, tail);
        assert("  min-entropy leakage         0.0000 bits   <- guessing advantage\n"@ =~= label + (
        spaces(3) + "0.0000"@) + tail);
    }
    assert({
        let b = "  H(S|O) remaining            0.0000 bits\n\n"@;
        &&& words(b) == labelled("  H(S|O) remaining         "@, "0.0000"@, " bits\n\n"@)
        &&& b.len() > 0 && is_blank(b.last())
    }) by {
        reveal_strlit("  H(S|O) remaining            0.0000 bits\n\n");
        reveal_strlit("  H(S|O) remaining         ");
        reveal_strlit(" bits\n\n");
        let label = "  H(S|O) remaining         "@;
        lemma_labelled(label, 3, "0.0000"@, " bits\n\n"@);
        assert("  H(S|O) remaining            0.0000 bits\n\n"@ =~= label + (spaces(3)
            + "0.0000"@) + " bits\n\n"@);
    }
}

proof fn lemma_unbounded_guess()
    ensures
        ({
            let a = "  single-guess success           NaN%  (vs NaN% with no observation)\n"@;
            &&& words(a) == labelled(
                "  single-guess success     "@,
                "NaN"@.push('%'),
                "  (vs "@,
            ) + (seq!["NaN"@.push('%')] + words(" with no observation)\n"@))
            &&& a.len() > 0 && is_blank(a.last())
        }),
{
    let a = "  single-guess success           NaN%  (vs NaN% with no observation)\n"@;
    let label = "  single-guess success     "@;
    let tail = " with no observation)\n"@;
    reveal_strlit("NaN");
    assert("NaN"@ =~= seq!['N', 'a', 'N']);
    let x = "NaN"@.push('%');
    assert(x =~= seq!['N', 'a', 'N', '%']);
    assert(is_word(x));
    reveal_strlit("  single-guess success           NaN%  (vs NaN% with no observation)\n");
    reveal_strlit("  single-guess success     ");
    reveal_strlit("  (vs ");
    reveal_strlit(" with no observation)\n");
    lemma_labelled(label, 6, x, "  (vs "@);
    lemma_word(x);
    lemma_words_join(x, tail);
    let one = label + (spaces(6) + x) + "  (vs "@;
    lemma_words_join(one, x + tail);
    assert(a =~= one + (x + tail));
}

proof fn lemma_unbounded_largest(uniform: bool)
    ensures
        ({
            let a = "  largest identical class  "@ + unbounded_largest_text(uniform);
            &&& uniform ==> words(a) == labelled(
                "  largest identical class  "@,
                "inf"@,
                " secrets share one cycle count\n"@,
            )
            &&& !uniform ==> words(a) == labelled(
                "  largest identical class  "@,
                "NaN"@.push('%'),
                " of prior mass shares one cycle count\n"@,
            )
            &&& a.len() > 0 && is_blank(a.last())
        }),
{
    let label = "  largest identical class  "@;
    reveal_strlit("  largest identical class  ");
    if uniform {
        reveal_strlit("inf");
        assert("inf"@ =~= seq!['i', 'n', 'f']);
        assert(is_word("inf"@));
        reveal_strlit("      inf secrets share one cycle count\n");
        reveal_strlit(" secrets share one cycle count\n");
        let tail = " secrets share one cycle count\n"@;
        lemma_labelled(label, 6, "inf"@, tail);
        assert("      inf secrets share one cycle count\n"@ =~= spaces(6) + "inf"@ + tail);
        assert(label + (spaces(6) + "inf"@ + tail) =~= label + (spaces(6) + "inf"@) + tail);
    } else {
        reveal_strlit("NaN");
        assert("NaN"@ =~= seq!['N', 'a', 'N']);
        let x = "NaN"@.push('%');
        assert(x =~= seq!['N', 'a', 'N', '%']);
        assert(is_word(x));
        reveal_strlit("     NaN% of prior mass shares one cycle count\n");
        reveal_strlit(" of prior mass shares one cycle count\n");
        let tail = " of prior mass shares one cycle count\n"@;
        lemma_labelled(label, 5, x, tail);
        assert("     NaN% of prior mass shares one cycle count\n"@ =~= spaces(5) + x + tail);
        assert(label + (spaces(5) + x + tail) =~= label + (spaces(5) + x) + tail);
    }
}

proof fn lemma_unbounded_share()
    ensures
        ({
            let a = "\n  => the cycle count reveals 0.0% of the secret's entropy.\n"@;
            &&& words(a) == labelled(
                "\n  => the cycle count reveals "@,
                "0.0"@.push('%'),
                " of the secret's entropy.\n"@,
            )
            &&& a.len() > 0 && is_blank(a.last())
        }),
{
    let label = "\n  => the cycle count reveals "@;
    let tail = " of the secret's entropy.\n"@;
    reveal_strlit("0.0");
    assert("0.0"@ =~= seq!['0', '.', '0']);
    let x = "0.0"@.push('%');
    assert(x =~= seq!['0', '.', '0', '%']);
    assert(is_word(x));
    reveal_strlit("\n  => the cycle count reveals 0.0% of the secret's entropy.\n");
    reveal_strlit("\n  => the cycle count reveals ");
    reveal_strlit(" of the secret's entropy.\n");
    lemma_labelled(label, 0, x, tail);
    assert(spaces(0) =~= Seq::empty());
    assert("\n  => the cycle count reveals 0.0% of the secret's entropy.\n"@ =~= label + (spaces(0)
        + x) + tail);
}

proof fn lemma_unbounded_oblivious(classes: nat)
    ensures
        words(unbounded_oblivious_text(classes)) == if classes == 1 {
            words("     All sampled secrets produce an identical cycle count: no leakage\n"@)
                + words("     through this observable, over this sample.\n"@)
        } else {
            Seq::empty()
        },
{
    if classes == 1 {
        reveal_strlit("     through this observable, over this sample.\n");
        lemma_words_join(
            "     All sampled secrets produce an identical cycle count: no leakage\n"@,
            "     through this observable, over this sample.\n"@,
        );
    }
}

/// The report on a sweep with an infinite weight has the words of any other report, with its
/// own numbers of secrets and of cycle counts, and where a share of the prior is wanted no
/// number, nothing leaked, and nothing revealed.
#[verifier::spinoff_prover]
#[verifier::rlimit(40)]
pub proof fn law_unbounded_report_reads(secrets: nat, classes: nat, weighted: bool)
    ensures
        words(unbounded_leakage_text(secrets, classes, !weighted)) == report_words(
            seq![
                decimal(secrets),
                decimal(classes),
                "NaN"@,
                "0.0000"@,
                "0.0000"@,
                "0.0000"@,
                "NaN"@,
                "NaN"@,
                if weighted {
                    "NaN"@
                } else {
                    "inf"@
                },
                "0.0"@,
            ],
            weighted,
            classes == 1,
        ),
        displays_whole(decimal(secrets), secrets as int),
        displays_whole(decimal(classes), classes as int),
{
    law_decimal_reads(secrets);
    law_decimal_reads(classes);
    lemma_counts_words(secrets, classes);
    lemma_unbounded_bits();
    lemma_unbounded_more_bits();
    lemma_unbounded_guess();
    lemma_unbounded_largest(!weighted);
    lemma_unbounded_share();
    lemma_unbounded_oblivious(classes);
    lemma_nine(
        counts_text(secrets, classes),
        "  H(S)   secret entropy          NaN bits\n"@,
        "  I(S;O) leaked (Shannon)     0.0000 bits   <- average bits revealed\n"@,
        "  min-entropy leakage         0.0000 bits   <- guessing advantage\n"@,
        "  H(S|O) remaining            0.0000 bits\n\n"@,
        "  single-guess success           NaN%  (vs NaN% with no observation)\n"@,
        "  largest identical class  "@ + unbounded_largest_text(!weighted),
        "\n  => the cycle count reveals 0.0% of the secret's entropy.\n"@,
        unbounded_oblivious_text(classes),
    );
}

/// How many distinct cycle counts a sweep has is how many there are in a list of them that
/// increases.
pub proof fn law_count_values(rows: Seq<Row>, vals: Seq<u64>)
    requires
        increasing(vals),
        forall|c: u64| #[trigger]
            vals.contains(c) <==> exists|i: int| 0 <= i < rows.len() && (#[trigger] rows[i]).cycles
                == c,
    ensures
        count_values(rows) == vals.len(),
{
    let bare = bare_rows(rows);
    assert forall|c: u64| #[trigger] vals.contains(c) <==> occurs(bare, c) by {
        if vals.contains(c) {
            let i = choose|i: int| 0 <= i < rows.len() && (#[trigger] rows[i]).cycles == c;
            assert(bare[i].0 == c);
        }
        if occurs(bare, c) {
            let i = choose|i: int| 0 <= i < bare.len() && (#[trigger] bare[i]).0 == c;
            assert(rows[i].cycles == c);
        }
    }
    law_class_count(bare, vals);
}

} // verus!
