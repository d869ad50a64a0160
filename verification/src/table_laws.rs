//! What a reader sees in the tables of the reports.

use crate::batch_laws::law_batch_of_one;
use crate::binary_log::LOG_ONE;
use crate::buckets::{ends_of, is_bucketing, is_cheapest, overhead, precedes};
use crate::frontier::{
    bucket_maxima, is_frontier, is_frontier_row, lemma_padded_total, padded_rows, value_rows,
    Frontier, FrontierRow,
};
use crate::leakage::{leakage_of, row_sum};
use crate::laws::{law_leakage_bounds, law_rescaling, lemma_rescaled, rescaled};
use crate::padding_laws::{law_padding_overhead, law_ties};
use crate::partition::{cycle_values, partition_of, total_weight};
use crate::reading::{
    displays, displays_whole, is_blank, is_word, law_decimal_reads, law_fixed_reads,
    law_fixed_scaled, lemma_decimal_word, lemma_words_in_field, lemma_words_join, words,
};
use crate::report::{
    bits_line, bits_text, frontier_foot, frontier_head, frontier_row_text, frontier_rows_text,
    frontier_text, leakage_text, scale_foot, scale_head, scale_row_text, scale_rows_text,
    scale_text, unbounded_scale_row_text, unbounded_scale_rows_text, unbounded_scale_text,
};
use crate::report_laws::{lemma_report_printed, report_figures, report_words};
use crate::scale::{
    batch_bits, batch_min_entropy, is_scale_row, is_scale_table, shown_sizes, ScaleRow,
};
use crate::text::{decimal, fixed, spaces, to_left, to_right};
use vstd::arithmetic::power2::pow2;
use vstd::prelude::*;

verus! {

pub proof fn lemma_blank_words()
    ensures
        words(" "@) == Seq::<Seq<char>>::empty(),
        words("  "@) == Seq::<Seq<char>>::empty(),
        words("\n"@) == Seq::<Seq<char>>::empty(),
        " "@.len() == 1 && is_blank(" "@[0]),
        "  "@.len() == 2 && is_blank("  "@[1]),
        "\n"@.len() == 1 && is_blank("\n"@[0]),
{
    reveal_strlit(" ");
    reveal_strlit("  ");
    reveal_strlit("\n");
    let e = Seq::<char>::empty();
    assert(words(e) == Seq::<Seq<char>>::empty());
    assert(" "@.drop_last() =~= e);
    assert("\n"@.drop_last() =~= e);
    assert("  "@.drop_last() =~= " "@);
    assert(" "@.last() == ' ' && "\n"@.last() == '\n' && "  "@.last() == ' ');
    assert(words(" "@) == words(e));
}

/// One more column of a line.
proof fn lemma_column(t: Seq<char>, x: Seq<char>, width: nat)
    requires
        is_word(x),
    ensures
        words(t + " "@ + to_right(x, width)) == words(t).push(x),
{
    lemma_blank_words();
    lemma_words_in_field(x, width);
    lemma_words_join(t, " "@);
    assert(words(t) + Seq::<Seq<char>>::empty() =~= words(t));
    lemma_words_join(t + " "@, to_right(x, width));
    assert(words(t) + seq![x] =~= words(t).push(x));
}

/// The first column of a line.
proof fn lemma_first_column(x: Seq<char>, width: nat)
    requires
        is_word(x),
    ensures
        words("  "@ + to_left(x, width)) == seq![x],
{
    lemma_blank_words();
    lemma_words_in_field(x, width);
    lemma_words_join("  "@, to_left(x, width));
    assert(Seq::<Seq<char>>::empty() + seq![x] =~= seq![x]);
}

/// The words of all the lines of a table.
pub open spec fn flattened(x: Seq<Seq<Seq<char>>>) -> Seq<Seq<char>>
    decreases x.len(),
{
    if x.len() == 0 {
        Seq::empty()
    } else {
        flattened(x.drop_last()) + x.last()
    }
}

// ---------------------------------------------------------------------------
// Buckets
// ---------------------------------------------------------------------------

/// The cycles of all secrets, each counted with its weight.
pub open spec fn cycles_of(rows: Seq<(u64, nat)>) -> nat {
    row_sum(rows, |c: u64| c as nat)
}

/// A sweep with every cost padded up to the largest of its bucket.
pub open spec fn padded_into(rows: Seq<(u64, nat)>, ends: Seq<int>) -> Seq<(u64, nat)> {
    padded_rows(rows, bucket_maxima(cycle_values(rows), ends))
}

/// Whether five printed numbers are those of a padding into buckets: how many buckets there
/// are, the two leakages of the padded sweep, the mean over the prior of the cycles that
/// padding adds, and how many times the cycles without padding there are with it.
pub open spec fn frontier_figures(
    x: Seq<Seq<char>>,
    rows: Seq<(u64, nat)>,
    k: nat,
    ends: Seq<int>,
) -> bool {
    let q = padded_into(rows, ends);
    let l = leakage_of(partition_of(q));
    &&& x.len() == 5
    &&& displays_whole(x[0], k as int)
    &&& displays(x[1], l.min_entropy_bits, LOG_ONE as int, 4)
    &&& displays(x[2], l.shannon_bits, LOG_ONE as int, 4)
    &&& displays(x[3], cycles_of(q) - cycles_of(rows), total_weight(rows) as int, 0)
    &&& x[4].len() > 0
    &&& x[4].last() == 'x'
    &&& displays(x[4].drop_last(), cycles_of(q) as int, cycles_of(rows) as int, 2)
}

/// Whether five printed numbers are those of a cheapest padding into `k` buckets.
pub open spec fn frontier_line(x: Seq<Seq<char>>, rows: Seq<(u64, nat)>, k: nat) -> bool {
    let n = cycle_values(rows).len() as int;
    exists|ends: Seq<int>| #[trigger]
        is_bucketing(ends, n, k) && frontier_figures(x, rows, k, ends) && forall|other: Seq<int>|
            #[trigger]
            is_bucketing(other, n, k) ==> cycles_of(padded_into(rows, ends)) <= cycles_of(
                padded_into(rows, other),
            )
}

/// Whether printed numbers are those of one up to `max_k` buckets, as far as there are that
/// many cycle counts, and of one bucket in any event.
pub open spec fn frontier_lines(
    x: Seq<Seq<Seq<char>>>,
    rows: Seq<(u64, nat)>,
    max_k: nat,
) -> bool {
    let n = cycle_values(rows).len();
    &&& x.len() >= 1
    &&& x.len() <= n
    &&& 1 <= max_k <= n ==> x.len() == max_k
    &&& max_k > n ==> x.len() == n
    &&& max_k == 0 ==> x.len() == 1
    &&& forall|a: int| 0 <= a < x.len() ==> frontier_line(#[trigger] x[a], rows, (a + 1) as nat)
}

/// The words above the table of buckets.
pub open spec fn frontier_title() -> Seq<Seq<char>> {
    words("Leakage vs padding overhead (exact, cycle counts only)\n\n"@) + words(
        "  Padding rounds each execution up to its bucket maximum, making all\n"@,
    ) + words("  secrets in a bucket produce an identical cycle count. Overhead below\n"@) + words(
        "  is in CYCLES; it does not translate linearly into proving seconds and\n"@,
    ) + words("  zkleak makes no wall-clock claim.\n\n"@) + words(
        "  k      min-entropy        Shannon mean overhead     overhead\n"@,
    ) + words("              (bits)         (bits)      (cycles)   (relative)\n"@)
}

/// The words below the table of buckets.
pub open spec fn frontier_note() -> Seq<Seq<char>> {
    words("\n  k=1 is full obliviousness through this observable (all executions\n"@) + words(
        "  padded to the maximum). Larger k trades bits for cycles.\n"@,
    )
}

/// Whether a text reads as the table of one up to `max_k` buckets, line by line.
pub open spec fn reads_as_frontier(text: Seq<char>, rows: Seq<(u64, nat)>, max_k: nat) -> bool {
    exists|x: Seq<Seq<Seq<char>>>| #[trigger]
        frontier_lines(x, rows, max_k) && words(text) == frontier_title() + flattened(x)
            + frontier_note()
}

spec fn frontier_printed(r: FrontierRow, total: nat, cycles: nat) -> Seq<Seq<char>> {
    let extra = r.solution.total_overhead@;
    seq![
        decimal(r.k as nat),
        bits_text(r.leakage@.min_entropy_bits as nat),
        bits_text(r.leakage@.shannon_bits as nat),
        fixed(extra, total, 0),
        fixed(cycles + extra, cycles, 2).push('x'),
    ]
}

proof fn lemma_frontier_words(r: FrontierRow, total: nat, cycles: nat)
    requires
        total > 0,
        cycles > 0,
    ensures
        words(frontier_row_text(r, total, cycles)) == frontier_printed(r, total, cycles),
        frontier_row_text(r, total, cycles).len() > 0,
        is_blank(frontier_row_text(r, total, cycles).last()),
{
    let extra = r.solution.total_overhead@;
    let x = frontier_printed(r, total, cycles);
    let last = fixed(cycles + extra, cycles, 2);
    lemma_decimal_word(r.k as nat);
    law_fixed_reads(r.leakage@.min_entropy_bits as nat, LOG_ONE as nat, 4);
    law_fixed_reads(r.leakage@.shannon_bits as nat, LOG_ONE as nat, 4);
    law_fixed_reads(extra, total, 0);
    law_fixed_reads(cycles + extra, cycles, 2);
    lemma_times_word(last);
    let front = four_columns(x[0], 5, x[1], 12, x[2], 14, x[3], 13);
    lemma_four_columns(x[0], 5, x[1], 12, x[2], 14, x[3], 13);
    lemma_column(front, x[4], 12);
    let t4 = front + " "@ + to_right(x[4], 12);
    lemma_line_end(t4);
    lemma_times_field(front + " "@, last);
    assert(words(t4) =~= x);
}

/// Four words in columns, the first to the left and the others to the right.
spec fn four_columns(
    a: Seq<char>,
    wa: nat,
    b: Seq<char>,
    wb: nat,
    c: Seq<char>,
    wc: nat,
    d: Seq<char>,
    wd: nat,
) -> Seq<char> {
    "  "@ + to_left(a, wa) + " "@ + to_right(b, wb) + " "@ + to_right(c, wc) + " "@ + to_right(
        d,
        wd,
    )
}

proof fn lemma_four_columns(
    a: Seq<char>,
    wa: nat,
    b: Seq<char>,
    wb: nat,
    c: Seq<char>,
    wc: nat,
    d: Seq<char>,
    wd: nat,
)
    requires
        is_word(a),
        is_word(b),
        is_word(c),
        is_word(d),
    ensures
        words(four_columns(a, wa, b, wb, c, wc, d, wd)) == seq![a, b, c, d],
{
    let t0 = "  "@ + to_left(a, wa);
    let t1 = t0 + " "@ + to_right(b, wb);
    let t2 = t1 + " "@ + to_right(c, wc);
    lemma_first_column(a, wa);
    lemma_column(t0, b, wb);
    lemma_column(t1, c, wc);
    lemma_column(t2, d, wd);
    assert(seq![a].push(b).push(c).push(d) =~= seq![a, b, c, d]);
}

/// A line break at the end adds no word.
proof fn lemma_line_end(t: Seq<char>)
    ensures
        words(t + "\n"@) == words(t),
        (t + "\n"@).len() > 0,
        is_blank((t + "\n"@).last()),
{
    lemma_blank_words();
    lemma_words_join(t, "\n"@);
    assert(words(t) + Seq::<Seq<char>>::empty() =~= words(t));
    assert((t + "\n"@).last() == "\n"@[0]);
}

proof fn lemma_times_word(s: Seq<char>)
    requires
        is_word(s),
    ensures
        is_word(s.push('x')),
{
    let x = s.push('x');
    assert forall|i: int| 0 <= i < x.len() implies !is_blank(#[trigger] x[i]) by {
        if i < s.len() {
            assert(x[i] == s[i]);
        }
    }
}

/// A factor is printed in a field with its sign behind it.
proof fn lemma_times_field(front: Seq<char>, s: Seq<char>)
    ensures
        front + to_right(s, 11) + "x\n"@ == front + to_right(s.push('x'), 12) + "\n"@,
{
    reveal_strlit("x\n");
    reveal_strlit("\n");
    assert(spaces(11 - s.len()) =~= spaces(12 - s.push('x').len()));
    assert(to_right(s, 11) + "x\n"@ =~= to_right(s.push('x'), 12) + "\n"@);
    assert(front + to_right(s, 11) + "x\n"@ =~= front + (to_right(s, 11) + "x\n"@));
    assert(front + to_right(s.push('x'), 12) + "\n"@ =~= front + (to_right(s.push('x'), 12)
        + "\n"@));
}

/// Each line of the table of buckets reads back as the numbers of the cheapest padding into
/// that many buckets. In particular the number in the column of the mean overhead, times the
/// total weight, is what padding adds to the cycles of all secrets, up to the rounding of
/// the last figure.
pub proof fn law_frontier_row_reads(r: FrontierRow, rows: Seq<(u64, nat)>, k: nat)
    requires
        total_weight(rows) > 0,
        cycles_of(rows) > 0,
        is_frontier_row(r, rows, k),
    ensures
        frontier_line(
            words(frontier_row_text(r, total_weight(rows), cycles_of(rows))),
            rows,
            k,
        ),
{
    let total = total_weight(rows);
    let cycles = cycles_of(rows);
    let extra = r.solution.total_overhead@;
    let x = frontier_printed(r, total, cycles);
    let n = cycle_values(rows).len() as int;
    let ends = ends_of(r.solution.bounds@);
    let q = padded_into(rows, ends);
    lemma_frontier_words(r, total, cycles);
    law_decimal_reads(k);
    lemma_padded_total(rows, bucket_maxima(cycle_values(rows), ends));
    law_leakage_bounds(q);
    law_fixed_reads(r.leakage@.min_entropy_bits as nat, LOG_ONE as nat, 4);
    law_fixed_reads(r.leakage@.shannon_bits as nat, LOG_ONE as nat, 4);
    law_fixed_reads(extra, total, 0);
    law_fixed_reads(cycles + extra, cycles, 2);
    law_padding_overhead(rows, ends, k);
    assert(x[4].drop_last() =~= fixed(cycles + extra, cycles, 2));
    assert(is_bucketing(ends, n, k));
    assert(frontier_figures(x, rows, k, ends));
    assert forall|other: Seq<int>| #[trigger] is_bucketing(other, n, k) implies cycles_of(q)
        <= cycles_of(padded_into(rows, other)) by {
        law_padding_overhead(rows, other, k);
    }
}

proof fn lemma_frontier_rows_words(
    rs: Seq<FrontierRow>,
    total: nat,
    cycles: nat,
    x: Seq<Seq<Seq<char>>>,
)
    requires
        total > 0,
        cycles > 0,
        x.len() == rs.len(),
        forall|a: int|
            0 <= a < rs.len() ==> #[trigger] x[a] == words(frontier_row_text(rs[a], total, cycles)),
    ensures
        words(frontier_rows_text(rs, total, cycles)) == flattened(x),
        rs.len() > 0 ==> frontier_rows_text(rs, total, cycles).len() > 0 && is_blank(
            frontier_rows_text(rs, total, cycles).last(),
        ),
    decreases rs.len(),
{
    if rs.len() > 0 {
        let t = rs.drop_last();
        let y = x.drop_last();
        assert forall|a: int| 0 <= a < t.len() implies #[trigger] y[a] == words(
            frontier_row_text(t[a], total, cycles),
        ) by {
            assert(y[a] == x[a]);
        }
        lemma_frontier_rows_words(t, total, cycles, y);
        let line = frontier_row_text(rs.last(), total, cycles);
        lemma_frontier_words(rs.last(), total, cycles);
        let before = frontier_rows_text(t, total, cycles);
        if t.len() == 0 {
            assert(before =~= Seq::empty());
        }
        lemma_words_join(before, line);
        assert(x[rs.len() - 1] == words(line));
        assert((before + line).last() == line.last());
    }
}

/// The report on the frontier of a sweep reads as the table of its cheapest paddings: one
/// line for each number of buckets, in order.
pub proof fn law_frontier_reads(f: Frontier, rows: Seq<(u64, nat)>, max_k: nat)
    requires
        total_weight(rows) > 0,
        cycles_of(rows) > 0,
        cycle_values(rows).len() >= 2,
        is_frontier(f, rows, max_k),
    ensures
        reads_as_frontier(frontier_text(f), rows, max_k),
{
    let total = total_weight(rows);
    let cycles = cycles_of(rows);
    let x = Seq::new(
        f.rows@.len(),
        |a: int| words(frontier_row_text(f.rows@[a], total, cycles)),
    );
    assert forall|a: int| 0 <= a < x.len() implies frontier_line(
        #[trigger] x[a],
        rows,
        (a + 1) as nat,
    ) by {
        assert(is_frontier_row(f.rows@[a], rows, (a + 1) as nat));
        law_frontier_row_reads(f.rows@[a], rows, (a + 1) as nat);
    }
    assert(frontier_lines(x, rows, max_k));
    lemma_frontier_rows_words(f.rows@, total, cycles, x);
    let body = frontier_rows_text(f.rows@, total, cycles);
    lemma_frontier_frame();
    lemma_words_join(frontier_head(), body);
    lemma_words_join(frontier_head() + body, frontier_foot());
}

/// The words of a text with a line before it that starts with a blank.
proof fn lemma_more(a: Seq<char>, b: Seq<char>)
    requires
        b.len() > 0,
        is_blank(b[0]),
    ensures
        words(a + b) == words(a) + words(b),
{
    lemma_words_join(a, b);
}

proof fn lemma_frontier_frame()
    ensures
        words(frontier_head()) == frontier_title(),
        frontier_head().len() > 0,
        is_blank(frontier_head().last()),
        words(frontier_foot()) == frontier_note(),
        frontier_foot().len() > 0,
        is_blank(frontier_foot()[0]),
{
    let a = "Leakage vs padding overhead (exact, cycle counts only)\n\n"@;
    let b = "  Padding rounds each execution up to its bucket maximum, making all\n"@;
    let c = "  secrets in a bucket produce an identical cycle count. Overhead below\n"@;
    let d = "  is in CYCLES; it does not translate linearly into proving seconds and\n"@;
    let e = "  zkleak makes no wall-clock claim.\n\n"@;
    let f = "  k      min-entropy        Shannon mean overhead     overhead\n"@;
    let g = "              (bits)         (bits)      (cycles)   (relative)\n"@;
    let h = "\n  k=1 is full obliviousness through this observable (all executions\n"@;
    let i = "  padded to the maximum). Larger k trades bits for cycles.\n"@;
    assert(b.len() > 0 && is_blank(b[0])) by {
        reveal_strlit("  Padding rounds each execution up to its bucket maximum, making all\n");
    }
    assert(c.len() > 0 && is_blank(c[0])) by {
        reveal_strlit("  secrets in a bucket produce an identical cycle count. Overhead below\n");
    }
    assert(d.len() > 0 && is_blank(d[0])) by {
        reveal_strlit("  is in CYCLES; it does not translate linearly into proving seconds and\n");
    }
    assert(e.len() > 0 && is_blank(e[0])) by {
        reveal_strlit("  zkleak makes no wall-clock claim.\n\n");
    }
    assert(f.len() > 0 && is_blank(f[0])) by {
        reveal_strlit("  k      min-entropy        Shannon mean overhead     overhead\n");
    }
    assert(g.len() > 0 && is_blank(g[0]) && is_blank(g.last())) by {
        reveal_strlit("              (bits)         (bits)      (cycles)   (relative)\n");
    }
    assert(h.len() > 0 && is_blank(h[0])) by {
        reveal_strlit("\n  k=1 is full obliviousness through this observable (all executions\n");
    }
    assert(i.len() > 0 && is_blank(i[0])) by {
        reveal_strlit("  padded to the maximum). Larger k trades bits for cycles.\n");
    }
    lemma_more(a, b);
    lemma_more(a + b, c);
    lemma_more(a + b + c, d);
    lemma_more(a + b + c + d, e);
    lemma_more(a + b + c + d + e, f);
    lemma_more(a + b + c + d + e + f, g);
    lemma_more(h, i);
}

proof fn lemma_row_sum_rescaled(rows: Seq<(u64, nat)>, s: nat, g: spec_fn(u64) -> nat)
    ensures
        row_sum(rescaled(rows, s), g) == row_sum(rows, g) * s,
    decreases rows.len(),
{
    if rows.len() == 0 {
        assert(0 * s == 0) by (nonlinear_arith);
    } else {
        let t = rows.drop_last();
        lemma_row_sum_rescaled(t, s, g);
        assert(rescaled(rows, s).drop_last() =~= rescaled(t, s));
        let a = row_sum(t, g);
        let w = rows.last().1;
        let v = g(rows.last().0);
        assert(a * s + (w * s) * v == (a + w * v) * s) by (nonlinear_arith);
    }
}

/// Multiplying all weights multiplies the overhead of every padding.
proof fn lemma_overhead_rescaled(rows: Seq<(u64, nat)>, s: nat, ends: Seq<int>, k: nat)
    requires
        is_bucketing(ends, cycle_values(rows).len() as int, k),
    ensures
        padded_into(rescaled(rows, s), ends) == rescaled(padded_into(rows, ends), s),
        overhead(value_rows(partition_of(rescaled(rows, s))), ends) == overhead(
            value_rows(partition_of(rows)),
            ends,
        ) * s,
{
    let q = rescaled(rows, s);
    let id = |c: u64| c as nat;
    lemma_rescaled(rows, s, 0);
    law_padding_overhead(rows, ends, k);
    law_padding_overhead(q, ends, k);
    assert(padded_into(q, ends) =~= rescaled(padded_into(rows, ends), s));
    lemma_row_sum_rescaled(rows, s, id);
    lemma_row_sum_rescaled(padded_into(rows, ends), s, id);
    let a = cycles_of(rows) as int;
    let b = overhead(value_rows(partition_of(rows)), ends);
    assert((a + b) * s == a * s + b * s) by (nonlinear_arith);
}

/// The cheapest padding does not change when all weights are multiplied.
proof fn lemma_cheapest_rescaled(rows: Seq<(u64, nat)>, s: nat, ends: Seq<int>, k: nat)
    requires
        s > 0,
        is_cheapest(
            value_rows(partition_of(rescaled(rows, s))),
            ends,
            cycle_values(rows).len() as int,
            k,
        ),
    ensures
        is_cheapest(value_rows(partition_of(rows)), ends, cycle_values(rows).len() as int, k),
{
    let n = cycle_values(rows).len() as int;
    let vs = value_rows(partition_of(rows));
    lemma_overhead_rescaled(rows, s, ends, k);
    assert forall|other: Seq<int>| #[trigger] is_bucketing(other, n, k) implies {
        ||| overhead(vs, ends) < overhead(vs, other)
        ||| overhead(vs, ends) == overhead(vs, other) && precedes(ends, other)
    } by {
        lemma_overhead_rescaled(rows, s, other, k);
        let a = overhead(vs, ends);
        let b = overhead(vs, other);
        assert((a * s < b * s ==> a < b) && (a * s == b * s ==> a == b)) by (nonlinear_arith)
            requires
                s > 0,
        ;
    }
}

/// Multiplying all weights by one factor leaves how many lines the table of buckets has, and
/// in each line the number of buckets and both columns of the overhead; where the factor is
/// a power of two it leaves the whole report as it is.
pub proof fn law_frontier_rescaled(
    f: Frontier,
    g: Frontier,
    rows: Seq<(u64, nat)>,
    s: nat,
    max_k: nat,
)
    requires
        s > 0,
        total_weight(rows) > 0,
        cycles_of(rows) > 0,
        is_frontier(f, rows, max_k),
        is_frontier(g, rescaled(rows, s), max_k),
    ensures
        f.rows@.len() == g.rows@.len(),
        forall|a: int| #![trigger f.rows@[a]]
            0 <= a < f.rows@.len() ==> {
                let x = words(
                    frontier_row_text(f.rows@[a], f.total_weight@, f.weighted_cycles@),
                );
                let y = words(
                    frontier_row_text(g.rows@[a], g.total_weight@, g.weighted_cycles@),
                );
                x[0] == y[0] && x[3] == y[3] && x[4] == y[4]
            },
        (exists|e: nat| s == #[trigger] pow2(e)) ==> frontier_text(f) == frontier_text(g),
{
    let q = rescaled(rows, s);
    let total = total_weight(rows);
    let cycles = cycles_of(rows);
    lemma_rescaled(rows, s, 0);
    lemma_row_sum_rescaled(rows, s, |c: u64| c as nat);
    assert(total * s > 0 && cycles * s > 0) by (nonlinear_arith)
        requires
            total > 0,
            cycles > 0,
            s > 0,
    ;
    assert forall|a: int| #![trigger f.rows@[a]] 0 <= a < f.rows@.len() implies {
        let x = words(frontier_row_text(f.rows@[a], f.total_weight@, f.weighted_cycles@));
        let y = words(frontier_row_text(g.rows@[a], g.total_weight@, g.weighted_cycles@));
        &&& x[0] == y[0] && x[3] == y[3] && x[4] == y[4]
        &&& (exists|e: nat| s == #[trigger] pow2(e)) ==> frontier_row_text(
            f.rows@[a],
            total,
            cycles,
        ) == frontier_row_text(g.rows@[a], g.total_weight@, g.weighted_cycles@)
    } by {
        let k = (a + 1) as nat;
        let n = cycle_values(rows).len() as int;
        let vs = value_rows(partition_of(rows));
        assert(is_frontier_row(f.rows@[a], rows, k));
        assert(is_frontier_row(g.rows@[a], q, k));
        let u = ends_of(f.rows@[a].solution.bounds@);
        let v = ends_of(g.rows@[a].solution.bounds@);
        lemma_cheapest_rescaled(rows, s, v, k);
        law_ties(vs, u, v, n, k);
        lemma_overhead_rescaled(rows, s, u, k);
        let extra = f.rows@[a].solution.total_overhead@;
        assert(g.rows@[a].solution.total_overhead@ == extra * s);
        law_fixed_scaled(extra, total, 0, s);
        law_fixed_scaled(cycles + extra, cycles, 2, s);
        assert((cycles + extra) * s == cycles * s + extra * s) by (nonlinear_arith);
        lemma_frontier_words(f.rows@[a], total, cycles);
        lemma_frontier_words(g.rows@[a], total * s, cycles * s);
        let m = bucket_maxima(cycle_values(rows), u);
        lemma_padded_total(rows, m);
        law_rescaling(padded_into(rows, u), s);
    }
    if exists|e: nat| s == #[trigger] pow2(e) {
        lemma_same_rows_text(f.rows@, g.rows@, total, cycles, g.total_weight@, g.weighted_cycles@);
    }
}

proof fn lemma_same_rows_text(
    a: Seq<FrontierRow>,
    b: Seq<FrontierRow>,
    total: nat,
    cycles: nat,
    total2: nat,
    cycles2: nat,
)
    requires
        a.len() == b.len(),
        forall|i: int| #![trigger a[i]]
            0 <= i < a.len() ==> frontier_row_text(a[i], total, cycles) == frontier_row_text(
                b[i],
                total2,
                cycles2,
            ),
    ensures
        frontier_rows_text(a, total, cycles) == frontier_rows_text(b, total2, cycles2),
    decreases a.len(),
{
    if a.len() > 0 {
        let s = a.drop_last();
        let t = b.drop_last();
        assert forall|i: int| #![trigger s[i]] 0 <= i < s.len() implies frontier_row_text(
            s[i],
            total,
            cycles,
        ) == frontier_row_text(t[i], total2, cycles2) by {
            assert(s[i] == a[i]);
            assert(t[i] == b[i]);
        }
        lemma_same_rows_text(s, t, total, cycles, total2, cycles2);
        assert(a[a.len() - 1] == a.last());
    }
}

// ---------------------------------------------------------------------------
// Batches
// ---------------------------------------------------------------------------

/// Whether four printed numbers are those of batches of `n` items: how many items there are,
/// the two leakages about the batch as a whole, and what the last item adds to the Shannon
/// leakage.
pub open spec fn scale_line(x: Seq<Seq<char>>, rows: Seq<(u64, nat)>, n: nat) -> bool {
    let step = batch_bits(rows, n) - batch_bits(rows, (n - 1) as nat);
    &&& x.len() == 4
    &&& displays_whole(x[0], n as int)
    &&& displays(x[1], batch_min_entropy(rows, n), LOG_ONE as int, 4)
    &&& displays(x[2], batch_bits(rows, n), LOG_ONE as int, 4)
    &&& step >= 0 ==> displays(x[3], step, LOG_ONE as int, 4)
    &&& step < 0 ==> displays(x[3], 0, LOG_ONE as int, 4)
}

/// Whether these are the batch sizes up to `n` that a table shows, in order: one to four,
/// the powers of two, and `n` itself.
pub open spec fn are_shown(sizes: Seq<nat>, n: nat) -> bool {
    &&& forall|a: int, b: int| 0 <= a < b < sizes.len() ==> sizes[a] < sizes[b]
    &&& forall|k: nat| #[trigger]
        sizes.contains(k) <==> 1 <= k <= n && (k <= 4 || k == n || exists|e: nat|
            k == #[trigger] pow2(e))
}

/// Whether printed numbers are those of the batch sizes up to `n` that a table shows.
pub open spec fn scale_lines(
    x: Seq<Seq<Seq<char>>>,
    sizes: Seq<nat>,
    rows: Seq<(u64, nat)>,
    n: nat,
) -> bool {
    &&& are_shown(sizes, n)
    &&& x.len() == sizes.len()
    &&& forall|a: int| 0 <= a < x.len() ==> scale_line(#[trigger] x[a], rows, sizes[a])
}

/// The words above the table of batch sizes.
pub open spec fn scale_title() -> Seq<Seq<char>> {
    words("Predicted leakage when the guest processes n independent items\n\n"@) + words(
        "  Assumes item costs are i.i.d. draws from the measured distribution.\n"@,
    ) + words("  Only the SUM of costs is assumed observable: an observer who can see\n"@) + words(
        "  per-item costs learns each item separately and gets no benefit from\n"@,
    ) + words("  batching.\n\n"@) + words(
        "  n         min-entropy  total Shannon   marginal (nth)\n"@,
    ) + words("                 (bits)         (bits)           (bits)\n"@)
}

/// The words below the table of batch sizes.
pub open spec fn scale_note() -> Seq<Seq<char>> {
    words("\n  Total leakage grows roughly as 0.5*log2(n): each doubling of the batch\n"@) + words(
        "  adds about half a bit about the batch AS A WHOLE. The last column is the\n"@,
    ) + words("  MARGINAL contribution of the n-th item, H(O_n) - H(O_n-1) -- it shrinks\n"@)
        + words("  as ~1/n, which suggests but does not equal I(L_i;O), the leakage about\n"@)
        + words("  one specific item. Treat it as an indicator, not that quantity.\n"@)
}

/// Whether a text reads as the table of batches of up to `n` items, line by line.
pub open spec fn reads_as_scale(text: Seq<char>, rows: Seq<(u64, nat)>, n: nat) -> bool {
    exists|x: Seq<Seq<Seq<char>>>, sizes: Seq<nat>| #[trigger]
        scale_lines(x, sizes, rows, n) && words(text) == scale_title() + flattened(x)
            + scale_note()
}

/// The batch sizes that a table shows are those and no others, each once, in order.
pub proof fn law_shown_sizes(n: nat)
    ensures
        are_shown(shown_sizes(n, n), n),
{
    lemma_shown(n, n);
}

proof fn lemma_shown(m: nat, n: nat)
    requires
        m <= n,
    ensures
        ({
            let s = shown_sizes(m, n);
            &&& forall|a: int, b: int| 0 <= a < b < s.len() ==> s[a] < s[b]
            &&& forall|k: nat| #[trigger]
                s.contains(k) <==> 1 <= k <= m && (k <= 4 || k == n || exists|e: nat|
                    k == #[trigger] pow2(e))
        }),
    decreases m,
{
    let s = shown_sizes(m, n);
    if m > 0 {
        let m1 = (m - 1) as nat;
        let t = shown_sizes(m1, n);
        lemma_shown(m1, n);
        let shown = m <= 4 || m == n || exists|e: nat| m == #[trigger] pow2(e);
        assert forall|a: int, b: int| 0 <= a < b < s.len() implies s[a] < s[b] by {
            assert(t.contains(t[a]));
            if b < t.len() {
                assert(s[a] == t[a] && s[b] == t[b]);
            }
        }
        assert forall|k: nat| #[trigger] s.contains(k) <==> 1 <= k <= m && (k <= 4 || k == n
            || exists|e: nat| k == #[trigger] pow2(e)) by {
            if s.contains(k) {
                let i = s.index_of(k);
                if i < t.len() {
                    assert(t[i] == k);
                    assert(t.contains(k));
                } else {
                    assert(k == m && shown);
                }
            }
            if t.contains(k) {
                assert(s[t.index_of(k)] == k);
            }
            if k == m && shown {
                assert(s[s.len() - 1] == m);
            }
        }
    }
}

spec fn scale_printed(r: ScaleRow) -> Seq<Seq<char>> {
    seq![
        decimal(r.n as nat),
        bits_text(r.min_entropy_bits as nat),
        bits_text(r.total_bits as nat),
        bits_text(r.marginal_bits as nat),
    ]
}

proof fn lemma_scale_words(r: ScaleRow)
    ensures
        words(scale_row_text(r)) == scale_printed(r),
        scale_row_text(r).len() > 0,
        is_blank(scale_row_text(r).last()),
{
    let x = scale_printed(r);
    lemma_decimal_word(r.n as nat);
    law_fixed_reads(r.min_entropy_bits as nat, LOG_ONE as nat, 4);
    law_fixed_reads(r.total_bits as nat, LOG_ONE as nat, 4);
    law_fixed_reads(r.marginal_bits as nat, LOG_ONE as nat, 4);
    lemma_four_columns(x[0], 8, x[1], 12, x[2], 14, x[3], 16);
    lemma_line_end(four_columns(x[0], 8, x[1], 12, x[2], 14, x[3], 16));
    assert(words(four_columns(x[0], 8, x[1], 12, x[2], 14, x[3], 16)) =~= x);
}

/// Each line of the table of batch sizes reads back as the numbers of its batch size. In
/// particular the number in the column of the min-entropy is the min-entropy leakage of the
/// batch with four decimal places, whatever its Shannon leakage is.
pub proof fn law_scale_row_reads(r: ScaleRow, rows: Seq<(u64, nat)>)
    requires
        is_scale_row(r, rows),
    ensures
        scale_line(words(scale_row_text(r)), rows, r.n as nat),
{
    lemma_scale_words(r);
    law_decimal_reads(r.n as nat);
    law_fixed_reads(r.min_entropy_bits as nat, LOG_ONE as nat, 4);
    law_fixed_reads(r.total_bits as nat, LOG_ONE as nat, 4);
    law_fixed_reads(r.marginal_bits as nat, LOG_ONE as nat, 4);
}

/// The column of the min-entropy depends on the min-entropy leakage alone: two lines with
/// the same min-entropy leakage have the same word there, and likewise for the others.
pub proof fn law_scale_columns(r: ScaleRow, s: ScaleRow)
    ensures
        r.n == s.n ==> words(scale_row_text(r))[0] == words(scale_row_text(s))[0],
        r.min_entropy_bits == s.min_entropy_bits ==> words(scale_row_text(r))[1] == words(
            scale_row_text(s),
        )[1],
        r.total_bits == s.total_bits ==> words(scale_row_text(r))[2] == words(
            scale_row_text(s),
        )[2],
        r.marginal_bits == s.marginal_bits ==> words(scale_row_text(r))[3] == words(
            scale_row_text(s),
        )[3],
{
    lemma_scale_words(r);
    lemma_scale_words(s);
}

/// The line of a single item has the same two leakages as the report on the sweep, letter
/// for letter.
pub proof fn law_single_item_line(r: ScaleRow, rows: Seq<(u64, nat)>, weighted: bool)
    requires
        total_weight(rows) > 0,
        is_scale_row(r, rows),
        r.n == 1,
    ensures
        ({
            let p = partition_of(rows);
            let text = leakage_text(leakage_of(p), p, !weighted);
            exists|x: Seq<Seq<char>>, g: nat|
                {
                    &&& #[trigger] report_figures(x, rows, weighted, g)
                    &&& words(text) == report_words(x, weighted, cycle_values(rows).len() == 1)
                    &&& words(scale_row_text(r))[1] == x[4]
                    &&& words(scale_row_text(r))[2] == x[3]
                }
        }),
{
    lemma_scale_words(r);
    law_batch_of_one(rows);
    let (x, g) = lemma_report_printed(rows, weighted);
    assert(report_figures(x, rows, weighted, g));
}

proof fn lemma_scale_rows_words(t: Seq<ScaleRow>, x: Seq<Seq<Seq<char>>>)
    requires
        x.len() == t.len(),
        forall|a: int| 0 <= a < t.len() ==> #[trigger] x[a] == words(scale_row_text(t[a])),
    ensures
        words(scale_rows_text(t)) == flattened(x),
        t.len() > 0 ==> scale_rows_text(t).len() > 0 && is_blank(scale_rows_text(t).last()),
    decreases t.len(),
{
    if t.len() > 0 {
        let u = t.drop_last();
        let y = x.drop_last();
        assert forall|a: int| 0 <= a < u.len() implies #[trigger] y[a] == words(
            scale_row_text(u[a]),
        ) by {
            assert(y[a] == x[a]);
        }
        lemma_scale_rows_words(u, y);
        let line = scale_row_text(t.last());
        lemma_scale_words(t.last());
        let before = scale_rows_text(u);
        if u.len() == 0 {
            assert(before =~= Seq::empty());
        }
        lemma_words_join(before, line);
        assert(x[t.len() - 1] == words(line));
        assert((before + line).last() == line.last());
    }
}

/// The report on batches reads as the table of the batch sizes that are shown: one line for
/// each, in order.
pub proof fn law_scale_reads(t: Seq<ScaleRow>, rows: Seq<(u64, nat)>, n: nat)
    requires
        is_scale_table(t, rows, n),
    ensures
        reads_as_scale(scale_text(t), rows, n),
{
    let sizes = shown_sizes(n, n);
    let named = t.map_values(|x: ScaleRow| x.n as nat);
    let x = Seq::new(t.len(), |a: int| words(scale_row_text(t[a])));
    law_shown_sizes(n);
    assert forall|a: int| 0 <= a < x.len() implies scale_line(#[trigger] x[a], rows, sizes[a]) by {
        assert(is_scale_row(t[a], rows));
        law_scale_row_reads(t[a], rows);
        assert(named[a] == t[a].n);
    }
    assert(named.len() == t.len());
    assert(scale_lines(x, sizes, rows, n));
    lemma_scale_rows_words(t, x);
    let body = scale_rows_text(t);
    lemma_scale_frame();
    lemma_words_join(scale_head(), body);
    lemma_words_join(scale_head() + body, scale_foot());
}

proof fn lemma_scale_frame()
    ensures
        words(scale_head()) == scale_title(),
        scale_head().len() > 0,
        is_blank(scale_head().last()),
        words(scale_foot()) == scale_note(),
        scale_foot().len() > 0,
        is_blank(scale_foot()[0]),
{
    let a = "Predicted leakage when the guest processes n independent items\n\n"@;
    let b = "  Assumes item costs are i.i.d. draws from the measured distribution.\n"@;
    let c = "  Only the SUM of costs is assumed observable: an observer who can see\n"@;
    let d = "  per-item costs learns each item separately and gets no benefit from\n"@;
    let e = "  batching.\n\n"@;
    let f = "  n         min-entropy  total Shannon   marginal (nth)\n"@;
    let g = "                 (bits)         (bits)           (bits)\n"@;
    let h = "\n  Total leakage grows roughly as 0.5*log2(n): each doubling of the batch\n"@;
    let i = "  adds about half a bit about the batch AS A WHOLE. The last column is the\n"@;
    let j = "  MARGINAL contribution of the n-th item, H(O_n) - H(O_n-1) -- it shrinks\n"@;
    let k = "  as ~1/n, which suggests but does not equal I(L_i;O), the leakage about\n"@;
    let l = "  one specific item. Treat it as an indicator, not that quantity.\n"@;
    assert(b.len() > 0 && is_blank(b[0])) by {
        reveal_strlit("  Assumes item costs are i.i.d. draws from the measured distribution.\n");
    }
    assert(c.len() > 0 && is_blank(c[0])) by {
        reveal_strlit("  Only the SUM of costs is assumed observable: an observer who can see\n");
    }
    assert(d.len() > 0 && is_blank(d[0])) by {
        reveal_strlit("  per-item costs learns each item separately and gets no benefit from\n");
    }
    assert(e.len() > 0 && is_blank(e[0])) by {
        reveal_strlit("  batching.\n\n");
    }
    assert(f.len() > 0 && is_blank(f[0])) by {
        reveal_strlit("  n         min-entropy  total Shannon   marginal (nth)\n");
    }
    assert(g.len() > 0 && is_blank(g[0]) && is_blank(g.last())) by {
        reveal_strlit("                 (bits)         (bits)           (bits)\n");
    }
    assert(h.len() > 0 && is_blank(h[0])) by {
        reveal_strlit(
            "\n  Total leakage grows roughly as 0.5*log2(n): each doubling of the batch\n",
        );
    }
    assert(i.len() > 0 && is_blank(i[0])) by {
        reveal_strlit(
            "  adds about half a bit about the batch AS A WHOLE. The last column is the\n",
        );
    }
    assert(j.len() > 0 && is_blank(j[0])) by {
        reveal_strlit(
            "  MARGINAL contribution of the n-th item, H(O_n) - H(O_n-1) -- it shrinks\n",
        );
    }
    assert(k.len() > 0 && is_blank(k[0])) by {
        reveal_strlit("  as ~1/n, which suggests but does not equal I(L_i;O), the leakage about\n");
    }
    assert(l.len() > 0 && is_blank(l[0])) by {
        reveal_strlit("  one specific item. Treat it as an indicator, not that quantity.\n");
    }
    lemma_more(a, b);
    lemma_more(a + b, c);
    lemma_more(a + b + c, d);
    lemma_more(a + b + c + d, e);
    lemma_more(a + b + c + d + e, f);
    lemma_more(a + b + c + d + e + f, g);
    lemma_more(h, i);
    lemma_more(h + i, j);
    lemma_more(h + i + j, k);
    lemma_more(h + i + j + k, l);
}

proof fn lemma_unbounded_row_words(n: nat)
    ensures
        words(unbounded_scale_row_text(n)) == seq![
            decimal(n),
            "0.0000"@,
            "-0.0000"@,
            if n == 1 {
                "-0.0000"@
            } else {
                "0.0000"@
            },
        ],
        unbounded_scale_row_text(n).len() > 0,
        is_blank(unbounded_scale_row_text(n).last()),
{
    let z = "0.0000"@;
    let m = "-0.0000"@;
    reveal_strlit("0.0000");
    reveal_strlit("-0.0000");
    assert(z =~= seq!['0', '.', '0', '0', '0', '0']);
    assert(m =~= seq!['-', '0', '.', '0', '0', '0', '0']);
    assert(is_word(z) && is_word(m));
    let last = if n == 1 {
        m
    } else {
        z
    };
    lemma_decimal_word(n);
    let line = four_columns(decimal(n), 8, z, 12, m, 14, last, 16);
    lemma_four_columns(decimal(n), 8, z, 12, m, 14, last, 16);
    lemma_line_end(line);
    lemma_unbounded_middle();
    lemma_unbounded_end();
    let t0 = "  "@ + to_left(decimal(n), 8);
    let middle = " "@ + to_right(z, 12) + (" "@ + to_right(m, 14));
    let end = " "@ + to_right(last, 16) + "\n"@;
    assert(unbounded_scale_row_text(n) == t0 + middle + end);
    lemma_regrouped(t0, " "@ + to_right(z, 12), " "@ + to_right(m, 14), end);
    assert(unbounded_scale_row_text(n) =~= line + "\n"@);
}

proof fn lemma_regrouped(a: Seq<char>, b: Seq<char>, c: Seq<char>, d: Seq<char>)
    ensures
        a + (b + c) + d == a + b + c + d,
{
    assert(a + (b + c) =~= a + b + c);
}

proof fn lemma_unbounded_middle()
    ensures
        "       0.0000        -0.0000"@ == " "@ + to_right("0.0000"@, 12) + (" "@ + to_right(
            "-0.0000"@,
            14,
        )),
{
    reveal_strlit("0.0000");
    reveal_strlit("-0.0000");
    reveal_strlit("       0.0000        -0.0000");
    reveal_strlit(" ");
    assert("       0.0000        -0.0000"@ =~= " "@ + to_right("0.0000"@, 12) + (" "@ + to_right(
        "-0.0000"@,
        14,
    )));
}

proof fn lemma_unbounded_end()
    ensures
        "          -0.0000\n"@ == " "@ + to_right("-0.0000"@, 16) + "\n"@,
        "           0.0000\n"@ == " "@ + to_right("0.0000"@, 16) + "\n"@,
{
    reveal_strlit("0.0000");
    reveal_strlit("-0.0000");
    reveal_strlit("          -0.0000\n");
    reveal_strlit("           0.0000\n");
    reveal_strlit(" ");
    reveal_strlit("\n");
    assert("          -0.0000\n"@ =~= " "@ + to_right("-0.0000"@, 16) + "\n"@);
    assert("           0.0000\n"@ =~= " "@ + to_right("0.0000"@, 16) + "\n"@);
}

proof fn lemma_unbounded_rows_words(sizes: Seq<nat>, x: Seq<Seq<Seq<char>>>)
    requires
        x.len() == sizes.len(),
        forall|a: int|
            0 <= a < x.len() ==> #[trigger] x[a] == words(unbounded_scale_row_text(sizes[a])),
    ensures
        words(unbounded_scale_rows_text(sizes)) == flattened(x),
        sizes.len() > 0 ==> unbounded_scale_rows_text(sizes).len() > 0 && is_blank(
            unbounded_scale_rows_text(sizes).last(),
        ),
    decreases sizes.len(),
{
    if sizes.len() > 0 {
        let t = sizes.drop_last();
        let y = x.drop_last();
        assert forall|a: int| 0 <= a < y.len() implies #[trigger] y[a] == words(
            unbounded_scale_row_text(t[a]),
        ) by {
            assert(y[a] == x[a]);
        }
        lemma_unbounded_rows_words(t, y);
        let line = unbounded_scale_row_text(sizes.last());
        lemma_unbounded_row_words(sizes.last());
        let before = unbounded_scale_rows_text(t);
        if t.len() == 0 {
            assert(before =~= Seq::empty());
        }
        lemma_words_join(before, line);
        assert(x[sizes.len() - 1] == words(line));
        assert((before + line).last() == line.last());
    }
}

/// The table of batches of a sweep with an infinite weight shows the same batch sizes as any
/// other, and in each line that nothing leaks.
pub proof fn law_unbounded_scale_reads(n: nat)
    ensures
        exists|x: Seq<Seq<Seq<char>>>, sizes: Seq<nat>|
            {
                &&& #[trigger] are_shown(sizes, n)
                &&& x.len() == sizes.len()
                &&& forall|a: int|
                    0 <= a < x.len() ==> #[trigger] x[a] == seq![
                        decimal(sizes[a]),
                        "0.0000"@,
                        "-0.0000"@,
                        if sizes[a] == 1 {
                            "-0.0000"@
                        } else {
                            "0.0000"@
                        },
                    ]
                &&& words(unbounded_scale_text(n)) == scale_title() + #[trigger] flattened(x)
                    + scale_note()
            },
{
    let sizes = shown_sizes(n, n);
    law_shown_sizes(n);
    let x = Seq::new(sizes.len(), |a: int| words(unbounded_scale_row_text(sizes[a])));
    assert forall|a: int| 0 <= a < x.len() implies #[trigger] x[a] == seq![
        decimal(sizes[a]),
        "0.0000"@,
        "-0.0000"@,
        if sizes[a] == 1 {
            "-0.0000"@
        } else {
            "0.0000"@
        },
    ] by {
        lemma_unbounded_row_words(sizes[a]);
    }
    lemma_unbounded_rows_words(sizes, x);
    let body = unbounded_scale_rows_text(sizes);
    lemma_scale_frame();
    lemma_words_join(scale_head(), body);
    lemma_words_join(scale_head() + body, scale_foot());
}

/// The table of buckets of a sweep with an infinite weight has no line.
pub proof fn law_unbounded_frontier_reads()
    ensures
        words(frontier_head() + frontier_foot()) == frontier_title() + frontier_note(),
{
    lemma_frontier_frame();
    lemma_words_join(frontier_head(), frontier_foot());
}

// ---------------------------------------------------------------------------
// Layout
// ---------------------------------------------------------------------------

/// A text in a field is followed or preceded by just as many spaces as fill the field.
pub proof fn law_field(s: Seq<char>, width: nat)
    ensures
        s.len() <= width ==> to_right(s, width).len() == width && to_left(s, width).len() == width,
        s.len() > width ==> to_right(s, width) == s && to_left(s, width) == s,
        to_right(s, width).skip(to_right(s, width).len() - s.len()) == s,
        to_left(s, width).take(s.len() as int) == s,
        forall|i: int|
            0 <= i < to_right(s, width).len() - s.len() ==> #[trigger] to_right(s, width)[i] == ' ',
        forall|i: int|
            s.len() <= i < to_left(s, width).len() ==> #[trigger] to_left(s, width)[i] == ' ',
{
    assert(to_right(s, width).skip(to_right(s, width).len() - s.len()) =~= s);
    assert(to_left(s, width).take(s.len() as int) =~= s);
    if s.len() > width {
        assert(to_right(s, width) =~= s);
        assert(to_left(s, width) =~= s);
    }
}

/// The columns of the table of batch sizes are aligned: the first starts at one place in
/// every line, and each other one ends at one place, as far as the numbers fit.
pub proof fn law_scale_layout(r: ScaleRow)
    requires
        words(scale_row_text(r))[0].len() <= 8,
        words(scale_row_text(r))[1].len() <= 12,
        words(scale_row_text(r))[2].len() <= 14,
        words(scale_row_text(r))[3].len() <= 16,
    ensures
        ({
            let line = scale_row_text(r);
            let x = words(line);
            &&& line.len() == 56
            &&& line.subrange(2, 2int + x[0].len()) == x[0]
            &&& line.subrange(23 - x[1].len(), 23) == x[1]
            &&& line.subrange(38 - x[2].len(), 38) == x[2]
            &&& line.subrange(55 - x[3].len(), 55) == x[3]
            &&& line[55] == '\n'
        }),
{
    let line = scale_row_text(r);
    lemma_scale_words(r);
    let x = words(line);
    reveal_strlit("  ");
    reveal_strlit(" ");
    reveal_strlit("\n");
    law_field(x[0], 8);
    law_field(x[1], 12);
    law_field(x[2], 14);
    law_field(x[3], 16);
    assert(line.len() == 56);
    assert(line.subrange(2, 2int + x[0].len()) =~= x[0]);
    assert(line.subrange(23 - x[1].len(), 23) =~= x[1]);
    assert(line.subrange(38 - x[2].len(), 38) =~= x[2]);
    assert(line.subrange(55 - x[3].len(), 55) =~= x[3]);
}

/// The columns of the table of buckets are aligned in the same way.
pub proof fn law_frontier_layout(r: FrontierRow, total: nat, cycles: nat)
    requires
        total > 0,
        cycles > 0,
        words(frontier_row_text(r, total, cycles))[0].len() <= 5,
        words(frontier_row_text(r, total, cycles))[1].len() <= 12,
        words(frontier_row_text(r, total, cycles))[2].len() <= 14,
        words(frontier_row_text(r, total, cycles))[3].len() <= 13,
        words(frontier_row_text(r, total, cycles))[4].len() <= 12,
    ensures
        ({
            let line = frontier_row_text(r, total, cycles);
            let x = words(line);
            &&& line.len() == 63
            &&& line.subrange(2, 2int + x[0].len()) == x[0]
            &&& line.subrange(20 - x[1].len(), 20) == x[1]
            &&& line.subrange(35 - x[2].len(), 35) == x[2]
            &&& line.subrange(49 - x[3].len(), 49) == x[3]
            &&& line.subrange(62 - x[4].len(), 62) == x[4]
            &&& line[62] == '\n'
        }),
{
    let line = frontier_row_text(r, total, cycles);
    lemma_frontier_words(r, total, cycles);
    let x = words(line);
    let extra = r.solution.total_overhead@;
    let last = fixed(cycles + extra, cycles, 2);
    reveal_strlit("  ");
    reveal_strlit(" ");
    reveal_strlit("x\n");
    law_field(x[0], 5);
    law_field(x[1], 12);
    law_field(x[2], 14);
    law_field(x[3], 13);
    law_field(last, 11);
    assert(x[4] == last.push('x'));
    assert(line.len() == 63);
    assert(line.subrange(2, 2int + x[0].len()) =~= x[0]);
    assert(line.subrange(20 - x[1].len(), 20) =~= x[1]);
    assert(line.subrange(35 - x[2].len(), 35) =~= x[2]);
    assert(line.subrange(49 - x[3].len(), 49) =~= x[3]);
    assert(line.subrange(62 - x[4].len(), 62) =~= x[4]);
}

/// A quantity of bits in the report ends nine places after its label, as far as it fits.
pub proof fn law_bits_layout(label: Seq<char>, bits: nat, tail: Seq<char>)
    requires
        bits_text(bits).len() <= 9,
    ensures
        ({
            let line = bits_line(label, bits, tail);
            let x = bits_text(bits);
            let end = label.len() + 9int;
            &&& line.len() == end + tail.len()
            &&& line.take(label.len() as int) == label
            &&& line.subrange(end - x.len(), end) == x
            &&& line.skip(end) == tail
        }),
{
    let line = bits_line(label, bits, tail);
    let x = bits_text(bits);
    let end = label.len() + 9int;
    law_field(x, 9);
    assert(line.take(label.len() as int) =~= label);
    assert(line.subrange(end - x.len(), end) =~= x);
    assert(line.skip(end) =~= tail);
}

} // verus!
