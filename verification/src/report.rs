//! The text of the reports.

use crate::binary_log::LOG_ONE;
use crate::frontier::{is_frontier, padding_frontier, Frontier, FrontierRow};
use crate::leakage::{
    compute_leakage, leakage_of, lemma_class_max_bounds, lemma_row_bounds, row_sum, Leakage,
    LeakageView,
};
use crate::natural::Nat;
use crate::partition::{
    build_partition, cycle_values, lemma_cycle_values, occurs, partition_of, positive_weights,
    sample_rows, total_weight, Partition, PartitionView, Sample,
};
use crate::report_laws::{law_report_reads, reads_as_report};
use crate::table_laws::{law_frontier_reads, law_scale_reads, reads_as_frontier, reads_as_scale};
use crate::csv::{samples_of, sweep_samples, Row};
use crate::weight::{is_positive, is_weight};
use crate::scale::{is_scale_table, scale_table, shown_sizes, shows, ScaleRow};
use crate::text::{
    append_chars, decimal, fixed, left, right, to_left, to_right, write_count, write_fixed,
};
use vstd::prelude::*;

verus! {

/// A quantity of bits with four decimal places.
pub open spec fn bits_text(bits: nat) -> Seq<char> {
    fixed(bits, LOG_ONE as nat, 4)
}

/// A ratio as a percentage.
pub open spec fn percent_text(num: nat, den: nat, places: nat) -> Seq<char> {
    fixed(100 * num, den, places)
}

/// The share of the entropy of the secret that is revealed, as a percentage.
pub open spec fn revealed_text(l: LeakageView) -> Seq<char> {
    if l.revealed.1 > 0 {
        percent_text(l.revealed.0, l.revealed.1, 1)
    } else {
        fixed(0, 1, 1)
    }
}

/// How large the largest class is: a count under a uniform prior, a share otherwise.
pub open spec fn largest_text(l: LeakageView, p: PartitionView, uniform: bool) -> Seq<char> {
    if uniform {
        to_right(fixed(l.largest_class_weight, 1, 0), 9) + " secrets share one cycle count\n"@
    } else {
        to_right(percent_text(l.largest_class_weight, p.total, 2), 8)
            + "% of prior mass shares one cycle count\n"@
    }
}

/// What is said of a sweep that reveals nothing.
pub open spec fn oblivious_text(l: LeakageView) -> Seq<char> {
    if l.num_classes == 1 {
        "     All sampled secrets produce an identical cycle count: no leakage\n"@
            + "     through this observable, over this sample.\n"@
    } else {
        Seq::empty()
    }
}

/// How many secrets there are, and how many cycle counts.
pub open spec fn counts_text(secrets: nat, classes: nat) -> Seq<char> {
    "  secrets sampled          "@ + decimal(secrets) + "\n"@ + "  distinct cycle counts    "@
        + decimal(classes) + "\n\n"@
}

/// A line with a quantity of bits.
pub open spec fn bits_line(label: Seq<char>, bits: nat, tail: Seq<char>) -> Seq<char> {
    label + to_right(bits_text(bits), 9) + tail
}

/// How likely a single guess succeeds, with and without an observation.
pub open spec fn guess_text(l: LeakageView, p: PartitionView) -> Seq<char> {
    "  single-guess success     "@ + to_right(
        percent_text(l.guess_probability.0, l.guess_probability.1, 4),
        9,
    ) + "%  (vs "@ + percent_text(p.max_secret, p.total, 4) + "% with no observation)\n"@
}

/// What share of the entropy the cycle count reveals.
pub open spec fn share_text(l: LeakageView) -> Seq<char> {
    "\n  => the cycle count reveals "@ + revealed_text(l) + "% of the secret's entropy.\n"@
}

/// The report on a sweep.
pub open spec fn leakage_text(l: LeakageView, p: PartitionView, uniform: bool) -> Seq<char> {
    counts_text(p.secrets, l.num_classes) + bits_line(
        "  H(S)   secret entropy    "@,
        l.secret_bits as nat,
        " bits\n"@,
    ) + bits_line(
        "  I(S;O) leaked (Shannon)  "@,
        l.shannon_bits as nat,
        " bits   <- average bits revealed\n"@,
    ) + bits_line(
        "  min-entropy leakage      "@,
        l.min_entropy_bits as nat,
        " bits   <- guessing advantage\n"@,
    ) + bits_line("  H(S|O) remaining         "@, l.residual_bits as nat, " bits\n\n"@)
        + guess_text(l, p) + ("  largest identical class  "@ + largest_text(l, p, uniform))
        + share_text(l) + oblivious_text(l)
}

fn write_bits(bits: u128) -> (r: Vec<char>)
    ensures
        r@ == bits_text(bits as nat),
{
    write_fixed(&Nat::from_u128(bits), &Nat::from_u64(LOG_ONE), 4)
}

fn write_percent(num: &Nat, den: &Nat, places: u32) -> (r: Vec<char>)
    requires
        den@ > 0,
    ensures
        r@ == percent_text(num@, den@, places as nat),
{
    let hundred: Nat = Nat::from_u64(100);
    assert(100 * num@ == num@ * 100);
    write_fixed(&num.times(&hundred), den, places)
}

/// Writes the report on a sweep.
pub fn print_leakage(l: &Leakage, p: &Partition, uniform: bool) -> (r: String)
    requires
        p@.total > 0,
        l@.guess_probability.1 > 0,
    ensures
        r@ == leakage_text(l@, p@, uniform),
{
    let mut r: String = String::new();
    write_counts(&mut r, p.num_secrets, l.num_classes);
    write_bits_line(&mut r, "  H(S)   secret entropy    ", l.secret_bits, " bits\n");
    write_bits_line(
        &mut r,
        "  I(S;O) leaked (Shannon)  ",
        l.shannon_bits,
        " bits   <- average bits revealed\n",
    );
    write_bits_line(
        &mut r,
        "  min-entropy leakage      ",
        l.min_entropy_bits,
        " bits   <- guessing advantage\n",
    );
    write_bits_line(&mut r, "  H(S|O) remaining         ", l.residual_bits, " bits\n\n");
    let ghost upper = r@;
    r.append("  single-guess success     ");
    let guess: Vec<char> = write_percent(&l.guess_probability.num, &l.guess_probability.den, 4);
    append_chars(&mut r, &right(guess, 9));
    r.append("%  (vs ");
    append_chars(&mut r, &write_percent(&p.max_secret_weight, &p.total_weight, 4));
    r.append("% with no observation)\n");
    assert(r@ =~= upper + guess_text(l@, p@));
    let ghost upper = r@;
    r.append("  largest identical class  ");
    if uniform {
        let count: Vec<char> = write_fixed(&l.largest_class_weight, &Nat::from_u64(1), 0);
        append_chars(&mut r, &right(count, 9));
        r.append(" secrets share one cycle count\n");
    } else {
        let share: Vec<char> = write_percent(&l.largest_class_weight, &p.total_weight, 2);
        append_chars(&mut r, &right(share, 8));
        r.append("% of prior mass shares one cycle count\n");
    }
    assert(r@ =~= upper + ("  largest identical class  "@ + largest_text(l@, p@, uniform)));
    let ghost upper = r@;
    r.append("\n  => the cycle count reveals ");
    let revealed: Vec<char> = if l.revealed.den.is_zero() {
        write_fixed(&Nat::zero(), &Nat::from_u64(1), 1)
    } else {
        write_percent(&l.revealed.num, &l.revealed.den, 1)
    };
    append_chars(&mut r, &revealed);
    r.append("% of the secret's entropy.\n");
    assert(r@ =~= upper + share_text(l@));
    let ghost upper = r@;
    if l.num_classes == 1 {
        r.append("     All sampled secrets produce an identical cycle count: no leakage\n");
        r.append("     through this observable, over this sample.\n");
    }
    assert(r@ =~= upper + oblivious_text(l@));
    r
}

fn write_counts(r: &mut String, secrets: usize, classes: usize)
    ensures
        final(r)@ == old(r)@ + counts_text(secrets as nat, classes as nat),
{
    let ghost before = r@;
    r.append("  secrets sampled          ");
    append_chars(r, &write_count(secrets));
    r.append("\n");
    r.append("  distinct cycle counts    ");
    append_chars(r, &write_count(classes));
    r.append("\n\n");
    assert(r@ =~= before + counts_text(secrets as nat, classes as nat));
}

fn write_bits_line(r: &mut String, label: &str, bits: u128, tail: &str)
    ensures
        final(r)@ == old(r)@ + bits_line(label@, bits as nat, tail@),
{
    let ghost before = r@;
    r.append(label);
    append_chars(r, &right(write_bits(bits), 9));
    r.append(tail);
    assert(r@ =~= before + bits_line(label@, bits as nat, tail@));
}

/// One line of the table of buckets: how many there are, what still leaks, and the
/// mean overhead in cycles and relative to the mean without padding.
pub open spec fn frontier_row_text(r: FrontierRow, total: nat, cycles: nat) -> Seq<char> {
    let extra = r.solution.total_overhead@;
    "  "@ + to_left(decimal(r.k as nat), 5) + " "@ + to_right(
        bits_text(r.leakage@.min_entropy_bits as nat),
        12,
    ) + " "@ + to_right(bits_text(r.leakage@.shannon_bits as nat), 14) + " "@ + to_right(
        fixed(extra, total, 0),
        13,
    ) + " "@ + to_right(fixed(cycles + extra, cycles, 2), 11) + "x\n"@
}

/// The lines of the table of buckets.
pub open spec fn frontier_rows_text(rows: Seq<FrontierRow>, total: nat, cycles: nat) -> Seq<char>
    decreases rows.len(),
{
    if rows.len() == 0 {
        Seq::empty()
    } else {
        frontier_rows_text(rows.drop_last(), total, cycles) + frontier_row_text(
            rows.last(),
            total,
            cycles,
        )
    }
}

/// What stands above the table of buckets.
pub open spec fn frontier_head() -> Seq<char> {
    "Leakage vs padding overhead (exact, cycle counts only)\n\n"@
        + "  Padding rounds each execution up to its bucket maximum, making all\n"@
        + "  secrets in a bucket produce an identical cycle count. Overhead below\n"@
        + "  is in CYCLES; it does not translate linearly into proving seconds and\n"@
        + "  zkleak makes no wall-clock claim.\n\n"@
        + "  k      min-entropy        Shannon mean overhead     overhead\n"@
        + "              (bits)         (bits)      (cycles)   (relative)\n"@
}

/// What stands below the table of buckets.
pub open spec fn frontier_foot() -> Seq<char> {
    "\n  k=1 is full obliviousness through this observable (all executions\n"@
        + "  padded to the maximum). Larger k trades bits for cycles.\n"@
}

/// The report on the frontier of padding.
pub open spec fn frontier_text(f: Frontier) -> Seq<char> {
    frontier_head() + frontier_rows_text(f.rows@, f.total_weight@, f.weighted_cycles@)
        + frontier_foot()
}

fn write_frontier_row(r: &FrontierRow, total: &Nat, cycles: &Nat) -> (s: String)
    requires
        total@ > 0,
        cycles@ > 0,
    ensures
        s@ == frontier_row_text(*r, total@, cycles@),
{
    let extra: &Nat = &r.solution.total_overhead;
    let mut s: String = String::new();
    s.append("  ");
    append_chars(&mut s, &left(write_count(r.k), 5));
    s.append(" ");
    append_chars(&mut s, &right(write_bits(r.leakage.min_entropy_bits), 12));
    s.append(" ");
    append_chars(&mut s, &right(write_bits(r.leakage.shannon_bits), 14));
    s.append(" ");
    append_chars(&mut s, &right(write_fixed(extra, total, 0), 13));
    s.append(" ");
    append_chars(&mut s, &right(write_fixed(&cycles.plus(extra), cycles, 2), 11));
    s.append("x\n");
    assert(s@ =~= frontier_row_text(*r, total@, cycles@));
    s
}

/// Writes the report on a frontier.
pub fn print_frontier(f: &Frontier) -> (r: String)
    requires
        f.total_weight@ > 0,
        f.weighted_cycles@ > 0,
    ensures
        r@ == frontier_text(*f),
{
    let mut r: String = String::new();
    r.append("Leakage vs padding overhead (exact, cycle counts only)\n\n");
    r.append("  Padding rounds each execution up to its bucket maximum, making all\n");
    r.append("  secrets in a bucket produce an identical cycle count. Overhead below\n");
    r.append("  is in CYCLES; it does not translate linearly into proving seconds and\n");
    r.append("  zkleak makes no wall-clock claim.\n\n");
    r.append("  k      min-entropy        Shannon mean overhead     overhead\n");
    r.append("              (bits)         (bits)      (cycles)   (relative)\n");
    assert(r@ =~= frontier_head());
    let ghost total = f.total_weight@;
    let ghost cycles = f.weighted_cycles@;
    let mut i: usize = 0;
    assert(f.rows@.take(0) =~= Seq::empty());
    assert(r@ =~= frontier_head() + frontier_rows_text(f.rows@.take(0), total, cycles));
    while i < f.rows.len()
        invariant
            total == f.total_weight@,
            cycles == f.weighted_cycles@,
            total > 0,
            cycles > 0,
            i <= f.rows@.len(),
            r@ == frontier_head() + frontier_rows_text(f.rows@.take(i as int), total, cycles),
        decreases f.rows.len() - i,
    {
        let line: String = write_frontier_row(&f.rows[i], &f.total_weight, &f.weighted_cycles);
        let ghost before = r@;
        r.append(line.as_str());
        proof {
            assert(f.rows@.take(i + 1).drop_last() =~= f.rows@.take(i as int));
            assert(r@ =~= frontier_head() + frontier_rows_text(
                f.rows@.take(i + 1),
                total,
                cycles,
            ));
        }
        i = i + 1;
    }
    assert(f.rows@.take(i as int) =~= f.rows@);
    r.append("\n  k=1 is full obliviousness through this observable (all executions\n");
    r.append("  padded to the maximum). Larger k trades bits for cycles.\n");
    assert(r@ =~= frontier_text(*f));
    r
}

/// A sweep with two costs and positive weights takes some cycles.
proof fn lemma_cycles_positive(rows: Seq<(u64, nat)>)
    requires
        positive_weights(rows),
        cycle_values(rows).len() >= 2,
    ensures
        row_sum(rows, |c: u64| c as nat) > 0,
        total_weight(rows) > 0,
{
    lemma_cycle_values(rows);
    let vals = cycle_values(rows);
    assert(vals[0] < vals[1]);
    assert(vals.contains(vals[1]));
    assert(occurs(rows, vals[1]));
    let i = choose|i: int| 0 <= i < rows.len() && (#[trigger] rows[i]).0 == vals[1];
    lemma_row_sum_at_least(rows, |c: u64| c as nat, i);
    let w = rows[i].1;
    let c = rows[i].0 as nat;
    assert(w * c > 0) by (nonlinear_arith)
        requires
            w > 0,
            c > 0,
    ;
    lemma_row_bounds(rows, i);
    lemma_class_max_bounds(rows, rows[i].0);
}

proof fn lemma_row_sum_at_least(rows: Seq<(u64, nat)>, g: spec_fn(u64) -> nat, i: int)
    requires
        0 <= i < rows.len(),
    ensures
        rows[i].1 * g(rows[i].0) <= row_sum(rows, g),
    decreases rows.len(),
{
    if i < rows.len() - 1 {
        lemma_row_sum_at_least(rows.drop_last(), g, i);
    }
}

/// Reports on the padding of samples into one up to `max_k` buckets.
pub fn report_buckets(rows: &Vec<Sample>, max_k: usize) -> (r: String)
    requires
        positive_weights(sample_rows(rows@)),
    ensures
        cycle_values(sample_rows(rows@)).len() < 2 ==> r@
            == "Only one distinct cycle count: nothing to pad.\n"@,
        cycle_values(sample_rows(rows@)).len() >= 2 ==> exists|f: Frontier| #[trigger]
            is_frontier(f, sample_rows(rows@), max_k as nat) && r@ == frontier_text(f),
        cycle_values(sample_rows(rows@)).len() >= 2 ==> reads_as_frontier(
            r@,
            sample_rows(rows@),
            max_k as nat,
        ),
{
    let ghost all = sample_rows(rows@);
    proof {
        if cycle_values(all).len() >= 2 {
            lemma_cycles_positive(all);
        }
    }
    match padding_frontier(rows, max_k) {
        None => {
            let mut r: String = String::new();
            r.append("Only one distinct cycle count: nothing to pad.\n");
            assert(r@ =~= "Only one distinct cycle count: nothing to pad.\n"@);
            r
        },
        Some(f) => {
            proof {
                law_frontier_reads(f, all, max_k as nat);
            }
            print_frontier(&f)
        },
    }
}

/// One line of the table of batch sizes.
pub open spec fn scale_row_text(r: ScaleRow) -> Seq<char> {
    "  "@ + to_left(decimal(r.n as nat), 8) + " "@ + to_right(
        bits_text(r.min_entropy_bits as nat),
        12,
    ) + " "@ + to_right(bits_text(r.total_bits as nat), 14) + " "@ + to_right(
        bits_text(r.marginal_bits as nat),
        16,
    ) + "\n"@
}

/// The lines of the table of batch sizes.
pub open spec fn scale_rows_text(rows: Seq<ScaleRow>) -> Seq<char>
    decreases rows.len(),
{
    if rows.len() == 0 {
        Seq::empty()
    } else {
        scale_rows_text(rows.drop_last()) + scale_row_text(rows.last())
    }
}

/// What stands above the table of batch sizes.
pub open spec fn scale_head() -> Seq<char> {
    "Predicted leakage when the guest processes n independent items\n\n"@
        + "  Assumes item costs are i.i.d. draws from the measured distribution.\n"@
        + "  Only the SUM of costs is assumed observable: an observer who can see\n"@
        + "  per-item costs learns each item separately and gets no benefit from\n"@
        + "  batching.\n\n"@ + "  n         min-entropy  total Shannon   marginal (nth)\n"@
        + "                 (bits)         (bits)           (bits)\n"@
}

/// What stands below the table of batch sizes.
pub open spec fn scale_foot() -> Seq<char> {
    "\n  Total leakage grows roughly as 0.5*log2(n): each doubling of the batch\n"@
        + "  adds about half a bit about the batch AS A WHOLE. The last column is the\n"@
        + "  MARGINAL contribution of the n-th item, H(O_n) - H(O_n-1) -- it shrinks\n"@
        + "  as ~1/n, which suggests but does not equal I(L_i;O), the leakage about\n"@
        + "  one specific item. Treat it as an indicator, not that quantity.\n"@
}

/// The report on batches.
pub open spec fn scale_text(rows: Seq<ScaleRow>) -> Seq<char> {
    scale_head() + scale_rows_text(rows) + scale_foot()
}

fn write_scale_row(r: &ScaleRow) -> (s: String)
    ensures
        s@ == scale_row_text(*r),
{
    let mut s: String = String::new();
    s.append("  ");
    append_chars(&mut s, &left(write_count(r.n), 8));
    s.append(" ");
    append_chars(&mut s, &right(write_bits(r.min_entropy_bits), 12));
    s.append(" ");
    append_chars(&mut s, &right(write_bits(r.total_bits), 14));
    s.append(" ");
    append_chars(&mut s, &right(write_bits(r.marginal_bits), 16));
    s.append("\n");
    assert(s@ =~= scale_row_text(*r));
    s
}

fn write_scale_head() -> (r: String)
    ensures
        r@ == scale_head(),
{
    let mut r: String = String::new();
    r.append("Predicted leakage when the guest processes n independent items\n\n");
    r.append("  Assumes item costs are i.i.d. draws from the measured distribution.\n");
    r.append("  Only the SUM of costs is assumed observable: an observer who can see\n");
    r.append("  per-item costs learns each item separately and gets no benefit from\n");
    r.append("  batching.\n\n");
    r.append("  n         min-entropy  total Shannon   marginal (nth)\n");
    r.append("                 (bits)         (bits)           (bits)\n");
    assert(r@ =~= scale_head());
    r
}

fn write_scale_foot(r: &mut String)
    ensures
        final(r)@ == old(r)@ + scale_foot(),
{
    let ghost before = r@;
    r.append("\n  Total leakage grows roughly as 0.5*log2(n): each doubling of the batch\n");
    r.append("  adds about half a bit about the batch AS A WHOLE. The last column is the\n");
    r.append("  MARGINAL contribution of the n-th item, H(O_n) - H(O_n-1) -- it shrinks\n");
    r.append("  as ~1/n, which suggests but does not equal I(L_i;O), the leakage about\n");
    r.append("  one specific item. Treat it as an indicator, not that quantity.\n");
    assert(r@ =~= before + scale_foot());
}

/// Writes the report on batches.
pub fn print_scale(rows: &Vec<ScaleRow>) -> (r: String)
    ensures
        r@ == scale_text(rows@),
{
    let mut r: String = write_scale_head();
    let mut i: usize = 0;
    assert(rows@.take(0) =~= Seq::empty());
    assert(r@ =~= scale_head() + scale_rows_text(rows@.take(0)));
    while i < rows.len()
        invariant
            i <= rows@.len(),
            r@ == scale_head() + scale_rows_text(rows@.take(i as int)),
        decreases rows.len() - i,
    {
        let line: String = write_scale_row(&rows[i]);
        r.append(line.as_str());
        proof {
            assert(rows@.take(i + 1).drop_last() =~= rows@.take(i as int));
            assert(r@ =~= scale_head() + scale_rows_text(rows@.take(i + 1)));
        }
        i = i + 1;
    }
    assert(rows@.take(i as int) =~= rows@);
    write_scale_foot(&mut r);
    assert(r@ =~= scale_text(rows@));
    r
}

/// Reports on batches of up to `n` items drawn from samples.
pub fn report_scale(rows: &Vec<Sample>, n: usize) -> (r: String)
    requires
        positive_weights(sample_rows(rows@)),
    ensures
        cycle_values(sample_rows(rows@)).len() < 2 ==> r@
            == "Only one distinct cycle count: leakage is 0 at every batch size.\n"@,
        cycle_values(sample_rows(rows@)).len() >= 2 ==> exists|t: Seq<ScaleRow>| #[trigger]
            is_scale_table(t, sample_rows(rows@), n as nat) && r@ == scale_text(t),
        cycle_values(sample_rows(rows@)).len() >= 2 ==> reads_as_scale(
            r@,
            sample_rows(rows@),
            n as nat,
        ),
{
    let ghost all = sample_rows(rows@);
    proof {
        if cycle_values(all).len() >= 2 {
            lemma_cycles_positive(all);
        }
    }
    match scale_table(rows, n) {
        None => {
            let mut r: String = String::new();
            r.append("Only one distinct cycle count: leakage is 0 at every batch size.\n");
            assert(r@ =~= "Only one distinct cycle count: leakage is 0 at every batch size.\n"@);
            r
        },
        Some(t) => {
            proof {
                law_scale_reads(t@, all, n as nat);
            }
            print_scale(&t)
        },
    }
}

/// Reports how much samples reveal.
pub fn report_leakage(rows: &Vec<Sample>, weighted: bool) -> (r: String)
    requires
        total_weight(sample_rows(rows@)) > 0,
    ensures
        r@ == leakage_text(
            leakage_of(partition_of(sample_rows(rows@))),
            partition_of(sample_rows(rows@)),
            !weighted,
        ),
        reads_as_report(r@, sample_rows(rows@), weighted),
{
    let p: Partition = build_partition(rows);
    let l: Leakage = compute_leakage(&p);
    proof {
        law_report_reads(sample_rows(rows@), weighted);
    }
    print_leakage(&l, &p, !weighted)
}

// ---------------------------------------------------------------------------
// Sweeps as they are read
// ---------------------------------------------------------------------------

/// Whether every weight of a sweep is greater than zero.
pub open spec fn positive_rows(rows: Seq<Row>) -> bool {
    forall|i: int| 0 <= i < rows.len() ==> is_positive((#[trigger] rows[i]).bits)
}

/// Whether every weight of a sweep is finite.
pub open spec fn finite_rows(rows: Seq<Row>) -> bool {
    forall|i: int| 0 <= i < rows.len() ==> is_weight((#[trigger] rows[i]).bits)
}

/// The cycle counts of a sweep, with no regard to its weights.
pub open spec fn bare_rows(rows: Seq<Row>) -> Seq<(u64, nat)> {
    rows.map_values(|r: Row| (r.cycles, 1nat))
}

/// How many distinct cycle counts a sweep has.
pub open spec fn count_values(rows: Seq<Row>) -> nat {
    cycle_values(bare_rows(rows)).len()
}

/// Distinct cycle counts do not depend on weights.
proof fn lemma_values_same(a: Seq<(u64, nat)>, b: Seq<(u64, nat)>)
    requires
        a.len() == b.len(),
        forall|i: int| 0 <= i < a.len() ==> (#[trigger] a[i]).0 == b[i].0,
    ensures
        cycle_values(a) == cycle_values(b),
    decreases a.len(),
{
    if a.len() > 0 {
        let s = a.drop_last();
        let t = b.drop_last();
        assert forall|i: int| 0 <= i < s.len() implies (#[trigger] s[i]).0 == t[i].0 by {
            assert(s[i] == a[i]);
        }
        lemma_values_same(s, t);
        assert(a[a.len() - 1].0 == b[b.len() - 1].0);
    }
}

/// Counts the distinct cycle counts of a sweep.
fn number_of_values(rows: &Vec<Row>) -> (r: usize)
    ensures
        r == count_values(rows@),
{
    let mut bare: Vec<Sample> = Vec::new();
    let mut i: usize = 0;
    while i < rows.len()
        invariant
            i <= rows@.len(),
            bare@.len() == i,
            forall|j: int| #![trigger bare@[j]]
                0 <= j < i ==> bare@[j].cycles == rows@[j].cycles && bare@[j].weight@ == 1,
        decreases rows.len() - i,
    {
        bare.push(Sample { cycles: rows[i].cycles, weight: Nat::from_u64(1) });
        i = i + 1;
    }
    assert(sample_rows(bare@) =~= bare_rows(rows@));
    let p: Partition = build_partition(&bare);
    assert(p.classes@.len() == p@.values.len());
    p.classes.len()
}

/// The largest class of a sweep whose weights have no finite sum.
pub open spec fn unbounded_largest_text(uniform: bool) -> Seq<char> {
    if uniform {
        "      inf secrets share one cycle count\n"@
    } else {
        "     NaN% of prior mass shares one cycle count\n"@
    }
}

/// What is said of a sweep that has one class only.
pub open spec fn unbounded_oblivious_text(classes: nat) -> Seq<char> {
    if classes == 1 {
        "     All sampled secrets produce an identical cycle count: no leakage\n"@
            + "     through this observable, over this sample.\n"@
    } else {
        Seq::empty()
    }
}

/// The report on a sweep with an infinite weight: shares of an infinite total are
/// not numbers, and quantities that cannot be negative are given as zero.
pub open spec fn unbounded_leakage_text(secrets: nat, classes: nat, uniform: bool) -> Seq<char> {
    counts_text(secrets, classes) + "  H(S)   secret entropy          NaN bits\n"@
        + "  I(S;O) leaked (Shannon)     0.0000 bits   <- average bits revealed\n"@
        + "  min-entropy leakage         0.0000 bits   <- guessing advantage\n"@
        + "  H(S|O) remaining            0.0000 bits\n\n"@
        + "  single-guess success           NaN%  (vs NaN% with no observation)\n"@
        + ("  largest identical class  "@ + unbounded_largest_text(uniform))
        + "\n  => the cycle count reveals 0.0% of the secret's entropy.\n"@
        + unbounded_oblivious_text(classes)
}

fn print_unbounded_leakage(secrets: usize, classes: usize, uniform: bool) -> (r: String)
    ensures
        r@ == unbounded_leakage_text(secrets as nat, classes as nat, uniform),
{
    let mut r: String = String::new();
    write_counts(&mut r, secrets, classes);
    r.append("  H(S)   secret entropy          NaN bits\n");
    r.append("  I(S;O) leaked (Shannon)     0.0000 bits   <- average bits revealed\n");
    r.append("  min-entropy leakage         0.0000 bits   <- guessing advantage\n");
    r.append("  H(S|O) remaining            0.0000 bits\n\n");
    r.append("  single-guess success           NaN%  (vs NaN% with no observation)\n");
    let ghost upper = r@;
    r.append("  largest identical class  ");
    if uniform {
        r.append("      inf secrets share one cycle count\n");
    } else {
        r.append("     NaN% of prior mass shares one cycle count\n");
    }
    assert(r@ =~= upper + ("  largest identical class  "@ + unbounded_largest_text(uniform)));
    r.append("\n  => the cycle count reveals 0.0% of the secret's entropy.\n");
    let ghost upper = r@;
    if classes == 1 {
        r.append("     All sampled secrets produce an identical cycle count: no leakage\n");
        r.append("     through this observable, over this sample.\n");
    }
    assert(r@ =~= upper + unbounded_oblivious_text(classes as nat));
    r
}

/// Reports how much a sweep reveals.
pub fn cmd_report(rows: &Vec<Row>, weighted: bool) -> (r: String)
    requires
        rows@.len() > 0,
        positive_rows(rows@),
    ensures
        finite_rows(rows@) ==> r@ == leakage_text(
            leakage_of(partition_of(samples_of(rows@))),
            partition_of(samples_of(rows@)),
            !weighted,
        ),
        finite_rows(rows@) ==> reads_as_report(r@, samples_of(rows@), weighted),
        !finite_rows(rows@) ==> r@ == unbounded_leakage_text(
            rows@.len(),
            count_values(rows@),
            !weighted,
        ),
{
    match sweep_samples(rows) {
        Some(samples) => report_leakage(&samples, weighted),
        None => print_unbounded_leakage(rows.len(), number_of_values(rows), !weighted),
    }
}

/// Reports what padding into one up to `max_k` buckets costs, and what it leaves.
///
/// With an infinite weight every padding has an infinite overhead, and no number of
/// buckets has a line in the table.
pub fn cmd_buckets(rows: &Vec<Row>, max_k: usize) -> (r: String)
    requires
        positive_rows(rows@),
    ensures
        count_values(rows@) < 2 ==> r@ == "Only one distinct cycle count: nothing to pad.\n"@,
        count_values(rows@) >= 2 && finite_rows(rows@) ==> exists|f: Frontier| #[trigger]
            is_frontier(f, samples_of(rows@), max_k as nat) && r@ == frontier_text(f),
        count_values(rows@) >= 2 && finite_rows(rows@) ==> reads_as_frontier(
            r@,
            samples_of(rows@),
            max_k as nat,
        ),
        count_values(rows@) >= 2 && !finite_rows(rows@) ==> r@ == frontier_head()
            + frontier_foot(),
{
    match sweep_samples(rows) {
        Some(samples) => {
            proof {
                lemma_values_same(samples_of(rows@), bare_rows(rows@));
            }
            report_buckets(&samples, max_k)
        },
        None => {
            if number_of_values(rows) < 2 {
                let mut r: String = String::new();
                r.append("Only one distinct cycle count: nothing to pad.\n");
                assert(r@ =~= "Only one distinct cycle count: nothing to pad.\n"@);
                return r;
            }
            let empty: Frontier = Frontier {
                total_weight: Nat::from_u64(1),
                weighted_cycles: Nat::from_u64(1),
                rows: Vec::new(),
            };
            let r: String = print_frontier(&empty);
            assert(r@ =~= frontier_head() + frontier_foot());
            r
        },
    }
}

/// One line of the table of batch sizes of a sweep with an infinite weight, where
/// no outcome has a positive share: the sum of no terms is a negative zero.
pub open spec fn unbounded_scale_row_text(n: nat) -> Seq<char> {
    "  "@ + to_left(decimal(n), 8) + "       0.0000        -0.0000"@ + (if n == 1 {
        "          -0.0000\n"@
    } else {
        "           0.0000\n"@
    })
}

/// The lines of the table of batch sizes of a sweep with an infinite weight.
pub open spec fn unbounded_scale_rows_text(sizes: Seq<nat>) -> Seq<char>
    decreases sizes.len(),
{
    if sizes.len() == 0 {
        Seq::empty()
    } else {
        unbounded_scale_rows_text(sizes.drop_last()) + unbounded_scale_row_text(sizes.last())
    }
}

/// The report on batches of a sweep with an infinite weight.
pub open spec fn unbounded_scale_text(n: nat) -> Seq<char> {
    scale_head() + unbounded_scale_rows_text(shown_sizes(n, n)) + scale_foot()
}

fn write_unbounded_scale_row(n: usize) -> (s: String)
    ensures
        s@ == unbounded_scale_row_text(n as nat),
{
    let mut s: String = String::new();
    s.append("  ");
    append_chars(&mut s, &left(write_count(n), 8));
    s.append("       0.0000        -0.0000");
    if n == 1 {
        s.append("          -0.0000\n");
    } else {
        s.append("           0.0000\n");
    }
    assert(s@ =~= unbounded_scale_row_text(n as nat));
    s
}

fn print_unbounded_scale(n: usize) -> (r: String)
    ensures
        r@ == unbounded_scale_text(n as nat),
{
    let mut r: String = write_scale_head();
    let mut k: usize = 0;
    assert(r@ =~= scale_head() + unbounded_scale_rows_text(shown_sizes(0, n as nat)));
    while k < n
        invariant
            k <= n,
            r@ == scale_head() + unbounded_scale_rows_text(shown_sizes(k as nat, n as nat)),
        decreases n - k,
    {
        let ghost sizes = shown_sizes(k as nat, n as nat);
        k = k + 1;
        if shows(k, n) {
            let line: String = write_unbounded_scale_row(k);
            r.append(line.as_str());
            proof {
                assert(sizes.push(k as nat).drop_last() =~= sizes);
                assert(r@ =~= scale_head() + unbounded_scale_rows_text(sizes.push(k as nat)));
            }
        }
    }
    write_scale_foot(&mut r);
    r
}

/// Reports the predicted leakage of batches of up to `n` items.
pub fn cmd_scale(rows: &Vec<Row>, n: usize) -> (r: String)
    requires
        positive_rows(rows@),
    ensures
        count_values(rows@) < 2 ==> r@
            == "Only one distinct cycle count: leakage is 0 at every batch size.\n"@,
        count_values(rows@) >= 2 && finite_rows(rows@) ==> exists|t: Seq<ScaleRow>| #[trigger]
            is_scale_table(t, samples_of(rows@), n as nat) && r@ == scale_text(t),
        count_values(rows@) >= 2 && finite_rows(rows@) ==> reads_as_scale(
            r@,
            samples_of(rows@),
            n as nat,
        ),
        count_values(rows@) >= 2 && !finite_rows(rows@) ==> r@ == unbounded_scale_text(n as nat),
{
    match sweep_samples(rows) {
        Some(samples) => {
            proof {
                lemma_values_same(samples_of(rows@), bare_rows(rows@));
            }
            report_scale(&samples, n)
        },
        None => {
            if number_of_values(rows) < 2 {
                let mut r: String = String::new();
                r.append("Only one distinct cycle count: leakage is 0 at every batch size.\n");
                assert(r@
                    =~= "Only one distinct cycle count: leakage is 0 at every batch size.\n"@);
                return r;
            }
            print_unbounded_scale(n)
        },
    }
}

} // verus!
