//! What holds of every text that is read.

use crate::csv::{
    after_lines, at_start, bits_of_rows, columns_of, line_of, looks_numeric, reading_at, samples_of,
    sweep_of, weight_fields_of, CsvErrorView, Fields, LineView, Progress, ReadingView, Row,
};
use crate::laws::uniform;
use crate::text::{decimal, is_digit, number_of, split_at_char, trimmed};
use crate::text_laws::{
    is_trim, law_decimal_round_trip, lemma_decimal, lemma_first_piece, lemma_pieces_after_trim,
    lemma_split_joined, lemma_split_none, lemma_split_pieces, lemma_trim_fixed, lemma_trimmed,
    trimmed_pieces,
};
use crate::weight::{
    common_twos, is_positive, lemma_twos_scaled, scale, significand, twos, units, HIDDEN_BIT,
    ONE_BITS,
};
use vstd::arithmetic::power2::{
    lemma2_to64, lemma2_to64_rest, lemma_pow2_adds, lemma_pow2_pos, pow2,
};
use vstd::prelude::*;

verus! {

proof fn lemma_rows_valid(lines: Seq<Seq<char>>, readings: Seq<ReadingView>)
    ensures
        ({
            let p = after_lines(lines, readings);
            &&& forall|i: int| 0 <= i < p.rows.len() ==> is_positive((#[trigger] p.rows[i]).2)
            &&& !p.weighted ==> forall|i: int|
                0 <= i < p.rows.len() ==> (#[trigger] p.rows[i]).2 == ONE_BITS
        }),
    decreases lines.len(),
{
    if lines.len() > 0 {
        lemma_rows_valid(lines.drop_last(), readings);
    }
}

/// A sweep that was read holds at least one measurement, all its weights are
/// greater than zero, and where no line gave a weight all of them are one.
pub proof fn law_sweep_is_valid(text: Seq<char>, readings: Seq<ReadingView>)
    requires
        sweep_of(text, readings).error is None,
    ensures
        ({
            let p = sweep_of(text, readings);
            &&& p.rows.len() > 0
            &&& forall|i: int| 0 <= i < p.rows.len() ==> is_positive((#[trigger] p.rows[i]).2)
            &&& !p.weighted ==> forall|i: int|
                0 <= i < p.rows.len() ==> (#[trigger] p.rows[i]).2 == ONE_BITS
        }),
{
    lemma_rows_valid(split_at_char(text, '\n'), readings);
}

proof fn lemma_one_units()
    ensures
        units(ONE_BITS) == pow2(twos(units(ONE_BITS))),
{
    lemma2_to64();
    lemma2_to64_rest();
    assert(ONE_BITS / HIDDEN_BIT == 1023);
    assert(ONE_BITS % HIDDEN_BIT == 0);
    assert(significand(ONE_BITS) == pow2(52));
    assert(scale(ONE_BITS) == 1022);
    lemma_pow2_adds(52, 1022);
    assert(units(ONE_BITS) == pow2(1074));
    lemma_twos_scaled(1, 1074);
    assert(1 * pow2(1074) == pow2(1074));
    assert(twos(1) == 0);
}

proof fn lemma_common_twos_same(bits: Seq<u64>, b: u64)
    requires
        bits.len() > 0,
        forall|i: int| 0 <= i < bits.len() ==> #[trigger] bits[i] == b,
    ensures
        common_twos(bits) == twos(units(b)),
    decreases bits.len(),
{
    assert(bits[0] == b);
    if bits.len() > 1 {
        let t = bits.drop_last();
        assert forall|i: int| 0 <= i < t.len() implies #[trigger] t[i] == b by {
            assert(t[i] == bits[i]);
        }
        lemma_common_twos_same(t, b);
        assert(bits[bits.len() - 1] == b);
    }
}

/// Without weights the prior is uniform: every secret weighs one, so that the
/// weight of a class is the number of its secrets.
pub proof fn law_default_weights(rows: Seq<Row>)
    requires
        forall|i: int| 0 <= i < rows.len() ==> (#[trigger] rows[i]).bits == ONE_BITS,
    ensures
        uniform(samples_of(rows), 1),
{
    let bits = bits_of_rows(rows);
    assert forall|i: int| 0 <= i < rows.len() implies (#[trigger] samples_of(rows)[i]).1 == 1 by {
        assert forall|j: int| 0 <= j < bits.len() implies #[trigger] bits[j] == ONE_BITS by {
            assert(rows[j].bits == ONE_BITS);
        }
        lemma_common_twos_same(bits, ONE_BITS);
        lemma_one_units();
        assert(bits[i] == ONE_BITS);
        let u = pow2(twos(units(ONE_BITS))) as int;
        lemma_pow2_pos(twos(units(ONE_BITS)));
        vstd::arithmetic::div_mod::lemma_div_by_self(u);
    }
}

// ---------------------------------------------------------------------------
// What does not matter
// ---------------------------------------------------------------------------

/// What a line says, given its columns.
pub open spec fn view_of_columns(f: Seq<Seq<char>>) -> LineView {
    if f.len() == 1 && f[0].len() == 0 || f[0].len() > 0 && f[0][0] == '#' {
        LineView::Blank
    } else if f.len() < 2 {
        LineView::Short { columns: f.len() }
    } else {
        match number_of(f[1], u64::MAX as nat) {
            None => LineView::NotInteger { field: f[1] },
            Some(cycles) => LineView::Data {
                label: f[0],
                cycles: cycles as u64,
                weight: if f.len() >= 3 && f[2].len() > 0 {
                    Some(f[2])
                } else {
                    None
                },
            },
        }
    }
}

/// What a line says depends only on its columns, without the white space around them.
pub proof fn law_columns_decide(raw: Seq<char>)
    ensures
        line_of(raw) == view_of_columns(columns_of(raw)),
{
    let line = trimmed(raw);
    lemma_first_piece(raw, ',');
    lemma_pieces_after_trim(raw, ',');
    assert(columns_of(raw) == trimmed_pieces(raw, ','));
    assert(columns_of(line) == trimmed_pieces(line, ','));
}

/// Fields with commas between them.
pub open spec fn joined(fields: Seq<Seq<char>>) -> Seq<char>
    decreases fields.len(),
{
    if fields.len() == 0 {
        Seq::empty()
    } else if fields.len() == 1 {
        fields[0]
    } else {
        joined(fields.drop_last()).push(',') + fields.last()
    }
}

/// Whether no field holds a comma.
pub open spec fn no_commas(fields: Seq<Seq<char>>) -> bool {
    forall|i: int| 0 <= i < fields.len() ==> !(#[trigger] fields[i]).contains(',')
}

pub proof fn lemma_split_of_joined(fields: Seq<Seq<char>>)
    requires
        fields.len() > 0,
        no_commas(fields),
    ensures
        split_at_char(joined(fields), ',') == fields,
    decreases fields.len(),
{
    let l = fields[fields.len() - 1];
    lemma_split_none(l, ',');
    if fields.len() == 1 {
        assert(seq![l] =~= fields);
    } else {
        let t = fields.drop_last();
        assert forall|i: int| 0 <= i < t.len() implies !(#[trigger] t[i]).contains(',') by {
            assert(t[i] == fields[i]);
        }
        lemma_split_of_joined(t);
        lemma_split_joined(joined(t), ',', l);
        assert(t + seq![l] =~= fields);
    }
}

/// White space around the fields of a line does not matter.
pub proof fn law_spaces_around_fields(a: Seq<Seq<char>>, b: Seq<Seq<char>>)
    requires
        a.len() > 0,
        a.len() == b.len(),
        no_commas(a),
        no_commas(b),
        forall|i: int| 0 <= i < a.len() ==> trimmed(#[trigger] a[i]) == trimmed(b[i]),
    ensures
        line_of(joined(a)) == line_of(joined(b)),
{
    lemma_split_of_joined(a);
    lemma_split_of_joined(b);
    assert(columns_of(joined(a)) =~= columns_of(joined(b))) by {
        assert forall|i: int| 0 <= i < a.len() implies columns_of(joined(a))[i] == columns_of(
            joined(b),
        )[i] by {
            assert(trimmed(a[i]) == trimmed(b[i]));
        }
    }
    law_columns_decide(joined(a));
    law_columns_decide(joined(b));
}

/// An error without the number of its line.
pub open spec fn without_line(e: Option<CsvErrorView>) -> Option<CsvErrorView> {
    match e {
        None => None,
        Some(CsvErrorView::TooFewColumns { columns, .. }) => Some(
            CsvErrorView::TooFewColumns { line: 0, columns },
        ),
        Some(CsvErrorView::CyclesNotInteger { field, .. }) => Some(
            CsvErrorView::CyclesNotInteger { line: 0, field },
        ),
        Some(CsvErrorView::WeightNotNumber { field, .. }) => Some(
            CsvErrorView::WeightNotNumber { line: 0, field },
        ),
        Some(CsvErrorView::WeightNotPositive { shown, .. }) => Some(
            CsvErrorView::WeightNotPositive { line: 0, shown },
        ),
        Some(CsvErrorView::NoDataRows) => Some(CsvErrorView::NoDataRows),
    }
}

/// A notice without the number of its line.
pub open spec fn noticed(n: Option<(nat, Seq<char>)>) -> Option<Seq<char>> {
    match n {
        Some(h) => Some(h.1),
        None => None,
    }
}

/// Whether two stages of reading are the same but for line numbers.
pub open spec fn same_progress(p: Progress, q: Progress) -> bool {
    &&& p.rows == q.rows
    &&& p.weighted == q.weighted
    &&& p.seen == q.seen
    &&& p.used == q.used
    &&& without_line(p.error) == without_line(q.error)
    &&& noticed(p.notice) == noticed(q.notice)
}

/// What the lines of a text say that are neither blank nor comments.
pub open spec fn significant(lines: Seq<Seq<char>>) -> Seq<LineView>
    decreases lines.len(),
{
    if lines.len() == 0 {
        Seq::empty()
    } else if line_of(lines.last()) is Blank {
        significant(lines.drop_last())
    } else {
        significant(lines.drop_last()).push(line_of(lines.last()))
    }
}

/// Lines that say the same are read alike, whatever stands between them.
proof fn lemma_same_significant(
    a: Seq<Seq<char>>,
    b: Seq<Seq<char>>,
    readings: Seq<ReadingView>,
)
    requires
        significant(a) == significant(b),
    ensures
        same_progress(after_lines(a, readings), after_lines(b, readings)),
        weight_fields_of(a) == weight_fields_of(b),
    decreases a.len() + b.len(),
{
    if a.len() > 0 && line_of(a.last()) is Blank {
        lemma_same_significant(a.drop_last(), b, readings);
    } else if b.len() > 0 && line_of(b.last()) is Blank {
        lemma_same_significant(a, b.drop_last(), readings);
    } else if a.len() > 0 {
        let s = significant(a.drop_last());
        assert(b.len() > 0) by {
            if b.len() == 0 {
                assert(significant(b).len() == 0);
                assert(significant(a).len() > 0);
            }
        }
        let t = significant(b.drop_last());
        assert(s.push(line_of(a.last())).drop_last() =~= s);
        assert(t.push(line_of(b.last())).drop_last() =~= t);
        assert(s.push(line_of(a.last())).last() == t.push(line_of(b.last())).last());
        lemma_same_significant(a.drop_last(), b.drop_last(), readings);
    } else {
        assert(significant(a).len() == 0);
        if b.len() > 0 {
            assert(significant(b).len() > 0);
        }
    }
}

/// Blank lines and comments, in whatever number and place, change nothing but the
/// numbers of lines, and nor does anything else that leaves what the other lines say.
pub proof fn law_only_significant_lines(
    a: Seq<char>,
    b: Seq<char>,
    readings: Seq<ReadingView>,
)
    requires
        significant(split_at_char(a, '\n')) == significant(split_at_char(b, '\n')),
    ensures
        same_progress(sweep_of(a, readings), sweep_of(b, readings)),
        weight_fields_of(split_at_char(a, '\n')) == weight_fields_of(split_at_char(b, '\n')),
{
    lemma_same_significant(split_at_char(a, '\n'), split_at_char(b, '\n'), readings);
}

/// Lines that are replaced one by one with lines that say the same still say the same.
pub proof fn law_lines_alike(a: Seq<Seq<char>>, b: Seq<Seq<char>>)
    requires
        a.len() == b.len(),
        forall|i: int| 0 <= i < a.len() ==> line_of(#[trigger] a[i]) == line_of(b[i]),
    ensures
        significant(a) == significant(b),
    decreases a.len(),
{
    if a.len() > 0 {
        let s = a.drop_last();
        let t = b.drop_last();
        assert forall|i: int| 0 <= i < s.len() implies line_of(#[trigger] s[i]) == line_of(
            t[i],
        ) by {
            assert(s[i] == a[i]);
        }
        law_lines_alike(s, t);
        assert(line_of(a[a.len() - 1]) == line_of(b[b.len() - 1]));
    }
}

/// A blank line or a comment, wherever it is put, says nothing.
pub proof fn law_comments_are_skipped(
    before: Seq<Seq<char>>,
    comment: Seq<char>,
    after: Seq<Seq<char>>,
)
    requires
        line_of(comment) is Blank,
    ensures
        significant(before.push(comment) + after) == significant(before + after),
    decreases after.len(),
{
    if after.len() == 0 {
        assert(before.push(comment) + after =~= before.push(comment));
        assert(before.push(comment).drop_last() =~= before);
        assert(before + after =~= before);
    } else {
        let t = after.drop_last();
        law_comments_are_skipped(before, comment, t);
        assert((before.push(comment) + after).drop_last() =~= before.push(comment) + t);
        assert((before + after).drop_last() =~= before + t);
    }
}

proof fn lemma_header_in_front(
    header: Seq<char>,
    lines: Seq<Seq<char>>,
    readings: Seq<ReadingView>,
)
    requires
        line_of(header) is NotInteger,
        significant(lines).len() == 0 || significant(lines)[0] is Data,
    ensures
        ({
            let p = after_lines(seq![header] + lines, readings);
            let q = after_lines(lines, readings);
            &&& p.rows == q.rows
            &&& p.weighted == q.weighted
            &&& p.seen
            &&& significant(lines).len() > 0 && q.error is None ==> q.seen
            &&& p.used == q.used
            &&& without_line(p.error) == without_line(q.error)
            &&& q.notice is None
            &&& noticed(p.notice) == if looks_numeric(line_of(header)->field) {
                Some(line_of(header)->field)
            } else {
                None
            }
        }),
        weight_fields_of(seq![header] + lines).texts == weight_fields_of(lines).texts,
        weight_fields_of(seq![header] + lines).stopped == weight_fields_of(lines).stopped,
        weight_fields_of(seq![header] + lines).seen,
        significant(lines).len() > 0 ==> weight_fields_of(lines).seen,
        significant(lines).len() == 0 ==> !weight_fields_of(lines).seen && !weight_fields_of(
            lines,
        ).stopped && after_lines(
            lines,
            readings,
        ) == at_start(),
    decreases lines.len(),
{
    let all = seq![header] + lines;
    if lines.len() == 0 {
        assert(all =~= seq![header]);
        assert(all.drop_last() =~= Seq::empty());
        assert(after_lines(Seq::empty(), readings) == at_start());
        assert(all.last() == header);
        assert(weight_fields_of(Seq::empty()).texts == Seq::<Seq<char>>::empty());
        assert(!weight_fields_of(Seq::empty()).seen && !weight_fields_of(Seq::empty()).stopped);
        assert(lines =~= Seq::empty());
    } else {
        let t = lines.drop_last();
        assert(all.drop_last() =~= seq![header] + t);
        assert(all.last() == lines.last());
        if !(line_of(lines.last()) is Blank) {
            assert(significant(lines).drop_last() =~= significant(t));
            if significant(t).len() > 0 {
                assert(significant(lines)[0] == significant(t)[0]);
            } else {
                assert(significant(lines)[0] == line_of(lines.last()));
            }
        }
        lemma_header_in_front(header, t, readings);
    }
}

/// A header in front of a text whose first significant line is a measurement changes
/// nothing but the numbers of lines, and that it is noticed if it looks like a number.
pub proof fn law_header_in_front(header: Seq<char>, text: Seq<char>, readings: Seq<ReadingView>)
    requires
        !header.contains('\n'),
        line_of(header) is NotInteger,
        significant(split_at_char(text, '\n')).len() > 0,
        significant(split_at_char(text, '\n'))[0] is Data,
    ensures
        ({
            let p = sweep_of(header.push('\n') + text, readings);
            let q = sweep_of(text, readings);
            &&& p.rows == q.rows
            &&& p.weighted == q.weighted
            &&& p.used == q.used
            &&& without_line(p.error) == without_line(q.error)
            &&& q.notice is None
            &&& noticed(p.notice) == if looks_numeric(line_of(header)->field) {
                Some(line_of(header)->field)
            } else {
                None
            }
        }),
        weight_fields_of(split_at_char(header.push('\n') + text, '\n')).texts
            == weight_fields_of(split_at_char(text, '\n')).texts,
{
    let lines = split_at_char(text, '\n');
    lemma_split_joined(header, '\n', text);
    lemma_split_none(header, '\n');
    lemma_header_in_front(header, lines, readings);
}

// ---------------------------------------------------------------------------
// Writing a sweep out
// ---------------------------------------------------------------------------

/// Whether a text can stand as a field of a line: it holds no comma and no line
/// break, and no white space at its ends.
pub open spec fn is_field(f: Seq<char>) -> bool {
    !f.contains(',') && !f.contains('\n') && is_trim(f)
}

/// Whether a text can stand as a label.
pub open spec fn is_label(f: Seq<char>) -> bool {
    is_field(f) && (f.len() > 0 ==> f[0] != '#')
}

/// The labels of a sweep that was read can stand as labels again.
proof fn lemma_labels(lines: Seq<Seq<char>>, readings: Seq<ReadingView>)
    requires
        forall|i: int| 0 <= i < lines.len() ==> !(#[trigger] lines[i]).contains('\n'),
    ensures
        forall|i: int|
            0 <= i < after_lines(lines, readings).rows.len() ==> is_label(
                (#[trigger] after_lines(lines, readings).rows[i]).0,
            ),
    decreases lines.len(),
{
    if lines.len() > 0 {
        let t = lines.drop_last();
        assert forall|i: int| 0 <= i < t.len() implies !(#[trigger] t[i]).contains('\n') by {
            assert(t[i] == lines[i]);
        }
        lemma_labels(t, readings);
        let raw = lines[lines.len() - 1];
        law_columns_decide(raw);
        lemma_split_pieces(raw, ',');
        let f = columns_of(raw);
        let piece = split_at_char(raw, ',')[0];
        assert(f[0] == trimmed(piece));
        lemma_trimmed(piece);
        assert(is_field(f[0])) by {
            if f[0].contains(',') {
                assert(piece.contains(','));
            }
            if f[0].contains('\n') {
                assert(piece.contains('\n'));
                assert(raw.contains('\n'));
            }
        }
    }
}

/// One line of a sweep that is written out.
pub open spec fn row_line(label: Seq<char>, cycles: u64, weight: Seq<char>) -> Seq<char> {
    joined(seq![label, decimal(cycles as nat), weight])
}

/// A sweep written out, one line for each row.
pub open spec fn written(
    rows: Seq<(Seq<char>, u64, u64)>,
    weights: Seq<Seq<char>>,
) -> Seq<char>
    decreases rows.len(),
{
    if rows.len() == 0 {
        Seq::empty()
    } else {
        (written(rows.drop_last(), weights) + row_line(
            rows.last().0,
            rows.last().1,
            weights[rows.len() - 1],
        )).push('\n')
    }
}

proof fn lemma_row_line(label: Seq<char>, cycles: u64, weight: Seq<char>)
    requires
        is_label(label),
        is_field(weight),
        weight.len() > 0,
    ensures
        line_of(row_line(label, cycles, weight)) == (LineView::Data {
            label,
            cycles,
            weight: Some(weight),
        }),
        !row_line(label, cycles, weight).contains('\n'),
{
    let d = decimal(cycles as nat);
    let fields = seq![label, d, weight];
    lemma_decimal(cycles as nat);
    law_decimal_round_trip(cycles as nat, u64::MAX as nat);
    assert(is_digit(d[0]) && is_digit(d[d.len() - 1]));
    assert(is_field(d)) by {
        if d.contains(',') {
            assert(is_digit(d[d.index_of(',')]));
        }
        if d.contains('\n') {
            assert(is_digit(d[d.index_of('\n')]));
        }
    }
    lemma_trim_fixed(label);
    lemma_trim_fixed(d);
    lemma_trim_fixed(weight);
    lemma_split_of_joined(fields);
    assert(columns_of(joined(fields)) =~= fields);
    law_columns_decide(joined(fields));
    let two = fields.drop_last();
    assert(two.drop_last() =~= seq![label]);
    assert(joined(seq![label]) == label);
    assert(two.last() == d);
    assert(joined(two) =~= label.push(',') + d);
    let line = joined(fields);
    assert(line =~= (label.push(',') + d).push(',') + weight);
    if line.contains('\n') {
        let i = line.index_of('\n');
        let a = label.len() as int;
        let b = a + 1 + d.len();
        assert(line[i] == '\n');
        if i < a {
            assert(label[i] == '\n');
        } else if i == a {
            assert(line[i] == ',');
        } else if i < b {
            assert(d[i - a - 1] == '\n');
        } else if i == b {
            assert(line[i] == ',');
        } else {
            assert(weight[i - b - 1] == '\n');
        }
    }
}

/// The lines of a sweep that is written out: one for each row, and an empty one.
proof fn lemma_written_lines(rows: Seq<(Seq<char>, u64, u64)>, weights: Seq<Seq<char>>)
    requires
        rows.len() > 0,
        !row_line(rows.last().0, rows.last().1, weights[rows.len() - 1]).contains('\n'),
    ensures
        ({
            let old_lines = split_at_char(written(rows.drop_last(), weights), '\n');
            let line = row_line(rows.last().0, rows.last().1, weights[rows.len() - 1]);
            &&& old_lines.len() > 0
            &&& old_lines.last() == Seq::<char>::empty()
            &&& split_at_char(written(rows, weights), '\n') == old_lines.drop_last().push(
                line,
            ).push(Seq::empty())
        }),
{
    let e = Seq::<char>::empty();
    let t = rows.drop_last();
    let before = written(t, weights);
    let old_lines = split_at_char(before, '\n');
    let line = row_line(rows.last().0, rows.last().1, weights[rows.len() - 1]);
    let body = before + line;
    let text = written(rows, weights);
    lemma_split_none(line, '\n');
    if t.len() == 0 {
        assert(body =~= line);
        assert(old_lines =~= seq![e]);
        assert(old_lines.drop_last().push(line) =~= seq![line]);
    } else {
        // The text so far ends in an empty line, which the new line takes the place of.
        let shorter = before.drop_last();
        assert(before =~= shorter.push('\n'));
        lemma_split_joined(shorter, '\n', line);
        assert(body =~= shorter.push('\n') + line);
        assert(old_lines == split_at_char(shorter, '\n').push(e));
        assert(old_lines.drop_last() =~= split_at_char(shorter, '\n'));
        assert(split_at_char(shorter, '\n') + seq![line] =~= old_lines.drop_last().push(line));
    }
    assert(text =~= body.push('\n'));
    assert(text.drop_last() =~= body);
}

/// What is read from a sweep up to some row.
spec fn read_so_far(rows: Seq<(Seq<char>, u64, u64)>) -> Progress {
    Progress {
        rows,
        weighted: rows.len() > 0,
        seen: rows.len() > 0,
        used: rows.len(),
        notice: None,
        error: None,
    }
}

proof fn lemma_empty_line(lines: Seq<Seq<char>>, readings: Seq<ReadingView>)
    ensures
        after_lines(lines.push(Seq::empty()), readings) == after_lines(lines, readings),
        weight_fields_of(lines.push(Seq::empty())) == weight_fields_of(lines),
{
    let e = Seq::<char>::empty();
    lemma_trim_fixed(e);
    assert(line_of(e) is Blank);
    assert(lines.push(e).drop_last() =~= lines);
}

/// What is read from a sweep that is written out.
proof fn lemma_written(
    rows: Seq<(Seq<char>, u64, u64)>,
    weights: Seq<Seq<char>>,
    readings: Seq<ReadingView>,
)
    requires
        weights.len() >= rows.len(),
        readings.len() >= rows.len(),
        forall|i: int|
            0 <= i < rows.len() ==> {
                &&& is_label((#[trigger] rows[i]).0)
                &&& is_positive(rows[i].2)
                &&& is_field(weights[i]) && weights[i].len() > 0
                &&& readings[i] matches ReadingView::Number { bits, .. } && bits == rows[i].2
            },
    ensures
        after_lines(split_at_char(written(rows, weights), '\n'), readings) == read_so_far(rows),
        weight_fields_of(split_at_char(written(rows, weights), '\n')) == (Fields {
            seen: rows.len() > 0,
            stopped: false,
            texts: weights.take(rows.len() as int),
        }),
    decreases rows.len(),
{
    let e = Seq::<char>::empty();
    let lines = split_at_char(written(rows, weights), '\n');
    if rows.len() == 0 {
        let none = Seq::<Seq<char>>::empty();
        assert(lines =~= none.push(e));
        lemma_empty_line(none, readings);
        assert(rows =~= Seq::empty());
        assert(weights.take(0) =~= Seq::empty());
    } else {
        let n = rows.len() - 1;
        let t = rows.drop_last();
        assert forall|i: int| 0 <= i < t.len() implies {
            &&& is_label((#[trigger] t[i]).0)
            &&& is_positive(t[i].2)
            &&& is_field(weights[i]) && weights[i].len() > 0
            &&& readings[i] matches ReadingView::Number { bits, .. } && bits == t[i].2
        } by {
            assert(t[i] == rows[i]);
        }
        lemma_written(t, weights, readings);
        assert(is_label(rows[n].0));
        let line = row_line(rows[n].0, rows[n].1, weights[n]);
        lemma_row_line(rows[n].0, rows[n].1, weights[n]);
        lemma_written_lines(rows, weights);
        let old_lines = split_at_char(written(t, weights), '\n');
        let kept = old_lines.drop_last();
        let now = kept.push(line);
        assert(old_lines =~= kept.push(e));
        lemma_empty_line(kept, readings);
        lemma_empty_line(now, readings);
        assert(now.drop_last() =~= kept);
        lemma_one_more(kept, line, rows, weights, readings);
        assert(weights.take(n).push(weights[n]) =~= weights.take(rows.len() as int));
    }
}

proof fn lemma_one_more(
    kept: Seq<Seq<char>>,
    line: Seq<char>,
    rows: Seq<(Seq<char>, u64, u64)>,
    weights: Seq<Seq<char>>,
    readings: Seq<ReadingView>,
)
    requires
        rows.len() > 0,
        readings.len() >= rows.len(),
        after_lines(kept, readings) == read_so_far(rows.drop_last()),
        weight_fields_of(kept).texts == weights.take(rows.len() - 1),
        !weight_fields_of(kept).stopped,
        line_of(line) == (LineView::Data {
            label: rows.last().0,
            cycles: rows.last().1,
            weight: Some(weights[rows.len() - 1]),
        }),
        is_positive(rows.last().2),
        readings[rows.len() - 1] matches ReadingView::Number { bits, .. } && bits == rows.last().2,
    ensures
        after_lines(kept.push(line), readings) == read_so_far(rows),
        weight_fields_of(kept.push(line)) == (Fields {
            seen: true,
            stopped: false,
            texts: weights.take(rows.len() - 1).push(weights[rows.len() - 1]),
        }),
{
    let n = rows.len() - 1;
    assert(kept.push(line).drop_last() =~= kept);
    assert(reading_at(readings, n as nat) == readings[n]);
    assert(rows.drop_last().push((rows.last().0, rows.last().1, rows.last().2)) =~= rows);
}

/// Writing out the rows of a sweep that was read, one line for each with its label,
/// its cycles and a text of its weight, and reading them again gives the same rows,
/// provided that reading those texts gives the same weights.
pub proof fn law_rows_round_trip(
    text: Seq<char>,
    readings: Seq<ReadingView>,
    weights: Seq<Seq<char>>,
    again: Seq<ReadingView>,
)
    requires
        sweep_of(text, readings).error is None,
        ({
            let rows = sweep_of(text, readings).rows;
            &&& weights.len() == rows.len()
            &&& again.len() == rows.len()
            &&& forall|i: int|
                0 <= i < rows.len() ==> {
                    &&& is_field(#[trigger] weights[i]) && weights[i].len() > 0
                    &&& again[i] matches ReadingView::Number { bits, .. } && bits == rows[i].2
                }
        }),
    ensures
        ({
            let rows = sweep_of(text, readings).rows;
            let out = written(rows, weights);
            let p = sweep_of(out, again);
            &&& p.error is None
            &&& p.rows == rows
            &&& p.weighted
            &&& p.notice is None
            &&& weight_fields_of(split_at_char(out, '\n')).texts == weights
        }),
{
    let lines = split_at_char(text, '\n');
    let rows = sweep_of(text, readings).rows;
    lemma_split_pieces(text, '\n');
    lemma_labels(lines, readings);
    law_sweep_is_valid(text, readings);
    assert forall|i: int| 0 <= i < rows.len() implies {
        &&& is_label((#[trigger] rows[i]).0)
        &&& is_positive(rows[i].2)
        &&& is_field(weights[i]) && weights[i].len() > 0
        &&& again[i] matches ReadingView::Number { bits, .. } && bits == rows[i].2
    } by {
        assert(is_field(weights[i]));
    }
    lemma_written(rows, weights, again);
    assert(weights.take(rows.len() as int) =~= weights);
}

/// The texts of the weights are listed in the order in which their readings are
/// used: all of them are used where nothing is wrong, and a weight that is
/// rejected is the one that was listed at its place.
pub proof fn law_readings_line_up(lines: Seq<Seq<char>>, readings: Seq<ReadingView>)
    ensures
        ({
            let w = weight_fields_of(lines);
            let p = after_lines(lines, readings);
            &&& p.error is None ==> p.used == w.texts.len() && p.seen == w.seen && !w.stopped
            &&& p.used <= w.texts.len()
            &&& p.error matches Some(CsvErrorView::WeightNotNumber { field, .. }) ==> p.used
                < w.texts.len() && w.texts[p.used as int] == field
            &&& p.error is Some && p.error->Some_0 is WeightNotPositive ==> p.used < w.texts.len()
        }),
    decreases lines.len(),
{
    if lines.len() > 0 {
        law_readings_line_up(lines.drop_last(), readings);
    }
}

} // verus!
