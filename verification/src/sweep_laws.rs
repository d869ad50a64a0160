//! How the rows of a sweep come from the lines of its text.

use crate::csv::{
    after_lines, columns_of, line_of, looks_numeric, readings_of, sweep_of, weight_fields_of,
    CsvErrorView, LineView, ReadingView, WeightReading,
};
use crate::csv_laws::{
    joined, law_columns_decide, law_readings_line_up, lemma_split_of_joined, no_commas,
};
use crate::reading::{denotes, is_figure, law_number_of};
use crate::text::{is_digit, number_of, split_at_char, trimmed};
use crate::text_laws::lemma_split_pieces;
use vstd::prelude::*;

verus! {

// ---------------------------------------------------------------------------
// One line
// ---------------------------------------------------------------------------

/// What a line says follows from its fields, without the white space around them: it is
/// skipped if it is blank or its first field starts with `#`, it is short if it has one
/// field, and otherwise its second field has to denote a number of cycles that fits. The
/// label is the first field, and the weight the third, if there is one that is not blank.
pub proof fn law_line_of_fields(fields: Seq<Seq<char>>)
    requires
        fields.len() > 0,
        no_commas(fields),
    ensures
        ({
            let first = trimmed(fields[0]);
            let v = line_of(joined(fields));
            let skipped = fields.len() == 1 && first.len() == 0 || first.len() > 0 && first[0]
                == '#';
            &&& skipped <==> v is Blank
            &&& !skipped && fields.len() == 1 ==> v == (LineView::Short { columns: 1 })
            &&& !skipped && fields.len() >= 2 ==> {
                let second = trimmed(fields[1]);
                let weight = if fields.len() >= 3 && trimmed(fields[2]).len() > 0 {
                    Some(trimmed(fields[2]))
                } else {
                    None
                };
                &&& forall|cycles: u64| #[trigger]
                    denotes(second, cycles as int) ==> v == (LineView::Data {
                        label: first,
                        cycles,
                        weight,
                    })
                &&& (forall|cycles: u64| !#[trigger] denotes(second, cycles as int)) ==> v == (
                LineView::NotInteger { field: second })
            }
        }),
{
    let raw = joined(fields);
    lemma_split_of_joined(fields);
    law_columns_decide(raw);
    let f = columns_of(raw);
    assert(f[0] == trimmed(fields[0]));
    if fields.len() >= 2 {
        let second = trimmed(fields[1]);
        assert(f[1] == second);
        if fields.len() >= 3 {
            assert(f[2] == trimmed(fields[2]));
        }
        assert forall|cycles: u64| #[trigger] denotes(second, cycles as int) implies number_of(
            second,
            u64::MAX as nat,
        ) == Some(cycles as nat) by {
            law_number_of(second, u64::MAX as nat, cycles as nat);
        }
        match number_of(second, u64::MAX as nat) {
            Some(n) => {
                law_number_of(second, u64::MAX as nat, n);
                let c = n as u64;
                assert(denotes(second, c as int));
            },
            None => {},
        }
    }
}

/// Every line is its fields with commas between them.
pub proof fn law_fields_of_line(raw: Seq<char>)
    ensures
        split_at_char(raw, ',').len() > 0,
        no_commas(split_at_char(raw, ',')),
        joined(split_at_char(raw, ',')) == raw,
    decreases raw.len(),
{
    lemma_split_pieces(raw, ',');
    let r = split_at_char(raw, ',');
    if raw.len() > 0 {
        let t = raw.drop_last();
        let l = raw.last();
        law_fields_of_line(t);
        let p = split_at_char(t, ',');
        assert(t.push(l) =~= raw);
        if l == ',' {
            assert(r =~= p.push(Seq::empty()));
            assert(r.drop_last() =~= p);
            assert(joined(r) =~= t.push(','));
        } else if p.len() == 1 {
            assert(r[0] =~= t.push(l));
        } else {
            assert(r.drop_last() =~= p.drop_last());
            assert(r.last() == p.last().push(l));
            let front = joined(p.drop_last()).push(',');
            assert(front + p.last().push(l) =~= (front + p.last()).push(l));
        }
    } else {
        assert(raw =~= Seq::empty());
        assert(r[0] =~= raw);
    }
}

// ---------------------------------------------------------------------------
// All lines
// ---------------------------------------------------------------------------

/// What the lines say that hold a measurement, in order.
pub open spec fn measured(lines: Seq<Seq<char>>) -> Seq<LineView>
    decreases lines.len(),
{
    if lines.len() == 0 {
        Seq::empty()
    } else if line_of(lines.last()) is Data {
        measured(lines.drop_last()).push(line_of(lines.last()))
    } else {
        measured(lines.drop_last())
    }
}

/// How many measurements give a weight.
pub open spec fn given(d: Seq<LineView>) -> nat
    decreases d.len(),
{
    if d.len() == 0 {
        0
    } else if d.last()->weight is Some {
        given(d.drop_last()) + 1
    } else {
        given(d.drop_last())
    }
}

proof fn lemma_given_take(d: Seq<LineView>, x: LineView, i: int)
    requires
        0 <= i <= d.len(),
    ensures
        given(d.push(x).take(i)) == given(d.take(i)),
{
    assert(d.push(x).take(i) =~= d.take(i));
}

/// How a row comes from the measurement at its place: the label and the cycles are those of
/// the line, and the weight is one where the line gives none, and otherwise the reading that
/// is next after those of the lines before.
pub open spec fn row_matches(
    row: (Seq<char>, u64, u64),
    d: Seq<LineView>,
    i: int,
    readings: Seq<ReadingView>,
) -> bool {
    let k = given(d.take(i)) as int;
    &&& row.0 == d[i]->label
    &&& row.1 == d[i]->cycles
    &&& d[i]->weight is None ==> row.2 == 0x3ff0_0000_0000_0000u64
    &&& d[i]->weight is Some ==> k < readings.len() && readings[k] is Number && readings[k]->bits
        == row.2
}

proof fn lemma_rows_of_lines(lines: Seq<Seq<char>>, readings: Seq<ReadingView>)
    requires
        after_lines(lines, readings).error is None,
    ensures
        ({
            let p = after_lines(lines, readings);
            let d = measured(lines);
            &&& p.rows.len() == d.len()
            &&& p.used == given(d)
            &&& p.weighted <==> given(d) > 0
            &&& forall|i: int|
                0 <= i < d.len() ==> row_matches(#[trigger] p.rows[i], d, i, readings)
        }),
    decreases lines.len(),
{
    if lines.len() > 0 {
        let t = lines.drop_last();
        lemma_rows_of_lines(t, readings);
        let p = after_lines(t, readings);
        let q = after_lines(lines, readings);
        let c = measured(t);
        let d = measured(lines);
        if line_of(lines.last()) is Data {
            let x = line_of(lines.last());
            assert(d.drop_last() =~= c);
            assert forall|i: int| 0 <= i < d.len() implies row_matches(
                #[trigger] q.rows[i],
                d,
                i,
                readings,
            ) by {
                lemma_given_take(c, x, i);
                assert(c.take(c.len() as int) =~= c);
                if i < c.len() {
                    assert(row_matches(p.rows[i], c, i, readings));
                    assert(q.rows[i] == p.rows[i]);
                    assert(d[i] == c[i]);
                } else {
                    assert(d[i] == x);
                }
            }
        }
    }
}

/// A text that is read without an error has exactly one row for each line with a
/// measurement, in order, and it counts as weighted just where some line gives a weight.
pub proof fn law_one_row_per_line(text: Seq<char>, readings: Seq<ReadingView>)
    requires
        sweep_of(text, readings).error is None,
    ensures
        ({
            let rows = sweep_of(text, readings).rows;
            let d = measured(split_at_char(text, '\n'));
            &&& rows.len() == d.len()
            &&& forall|i: int| 0 <= i < d.len() ==> row_matches(#[trigger] rows[i], d, i, readings)
            &&& sweep_of(text, readings).weighted <==> exists|i: int|
                0 <= i < d.len() && (#[trigger] d[i])->weight is Some
        }),
{
    let d = measured(split_at_char(text, '\n'));
    lemma_rows_of_lines(split_at_char(text, '\n'), readings);
    lemma_given_some(d);
}

proof fn lemma_given_some(d: Seq<LineView>)
    ensures
        given(d) > 0 <==> exists|i: int| 0 <= i < d.len() && (#[trigger] d[i])->weight is Some,
    decreases d.len(),
{
    if d.len() > 0 {
        let t = d.drop_last();
        lemma_given_some(t);
        assert(d[d.len() - 1] == d.last());
        if exists|i: int| 0 <= i < t.len() && (#[trigger] t[i])->weight is Some {
            let i = choose|i: int| 0 <= i < t.len() && (#[trigger] t[i])->weight is Some;
            assert(d[i]->weight is Some);
        }
        if exists|i: int| 0 <= i < d.len() && (#[trigger] d[i])->weight is Some {
            let i = choose|i: int| 0 <= i < d.len() && (#[trigger] d[i])->weight is Some;
            if i < t.len() {
                assert(t[i]->weight is Some);
            }
        }
    }
}

// ---------------------------------------------------------------------------
// What is wrong
// ---------------------------------------------------------------------------

/// What is wrong with a line, if nothing is wrong with those before it: it has one field
/// only, or its second field is no number of cycles although some line before it is not
/// blank, or it gives a weight whose reading is no number or not greater than zero.
pub open spec fn fault(lines: Seq<Seq<char>>, i: int, readings: Seq<ReadingView>) -> Option<
    CsvErrorView,
> {
    let line = (i + 1) as nat;
    let k = given(measured(lines.take(i))) as int;
    match line_of(lines[i]) {
        LineView::Blank => None,
        LineView::Short { columns } => Some(CsvErrorView::TooFewColumns { line, columns }),
        LineView::NotInteger { field } => if exists|j: int|
            0 <= j < i && !(line_of(#[trigger] lines[j]) is Blank) {
            Some(CsvErrorView::CyclesNotInteger { line, field })
        } else {
            None
        },
        LineView::Data { weight: None, .. } => None,
        LineView::Data { weight: Some(field), .. } => if k >= readings.len()
            || readings[k] is Malformed {
            Some(CsvErrorView::WeightNotNumber { line, field })
        } else if 0 < readings[k]->bits <= 0x7ff0_0000_0000_0000u64 {
            None
        } else {
            Some(CsvErrorView::WeightNotPositive { line, shown: readings[k]->shown })
        },
    }
}

proof fn lemma_fault(lines: Seq<Seq<char>>, readings: Seq<ReadingView>)
    ensures
        ({
            let p = after_lines(lines, readings);
            &&& p.error is None ==> {
                &&& forall|i: int|
                    0 <= i < lines.len() ==> #[trigger] fault(lines, i, readings) is None
                &&& p.seen <==> exists|j: int|
                    0 <= j < lines.len() && !(line_of(#[trigger] lines[j]) is Blank)
            }
            &&& p.error is Some ==> exists|i: int|
                {
                    &&& 0 <= i < lines.len()
                    &&& #[trigger] fault(lines, i, readings) == p.error
                    &&& forall|j: int| 0 <= j < i ==> #[trigger] fault(lines, j, readings) is None
                }
        }),
    decreases lines.len(),
{
    if lines.len() > 0 {
        let n = lines.len() - 1;
        let t = lines.drop_last();
        lemma_fault(t, readings);
        let p = after_lines(t, readings);
        let q = after_lines(lines, readings);
        assert(lines.take(n) =~= t);
        assert forall|i: int| 0 <= i < n implies #[trigger] fault(lines, i, readings) == fault(
            t,
            i,
            readings,
        ) by {
            assert(lines.take(i) =~= t.take(i));
            assert(lines[i] == t[i]);
            if exists|j: int| 0 <= j < i && !(line_of(#[trigger] lines[j]) is Blank) {
                let j = choose|j: int| 0 <= j < i && !(line_of(#[trigger] lines[j]) is Blank);
                assert(!(line_of(t[j]) is Blank));
            }
            if exists|j: int| 0 <= j < i && !(line_of(#[trigger] t[j]) is Blank) {
                let j = choose|j: int| 0 <= j < i && !(line_of(#[trigger] t[j]) is Blank);
                assert(!(line_of(lines[j]) is Blank));
            }
        }
        if p.error is Some {
            let i = choose|i: int|
                {
                    &&& 0 <= i < t.len()
                    &&& #[trigger] fault(t, i, readings) == p.error
                    &&& forall|j: int| 0 <= j < i ==> #[trigger] fault(t, j, readings) is None
                };
            assert(fault(lines, i, readings) == q.error);
        } else {
            lemma_rows_of_lines(t, readings);
            assert(p.seen <==> exists|j: int|
                0 <= j < n && !(line_of(#[trigger] lines[j]) is Blank)) by {
                if p.seen {
                    let j = choose|j: int| 0 <= j < t.len() && !(line_of(#[trigger] t[j]) is Blank);
                    assert(!(line_of(lines[j]) is Blank));
                }
                if exists|j: int| 0 <= j < n && !(line_of(#[trigger] lines[j]) is Blank) {
                    let j = choose|j: int| 0 <= j < n && !(line_of(#[trigger] lines[j]) is Blank);
                    assert(!(line_of(t[j]) is Blank));
                }
            }
            assert(lines[n] == lines.last());
            assert(fault(lines, n, readings) == q.error);
            if q.error is None && !(line_of(lines.last()) is Blank) {
                assert(!(line_of(lines[n]) is Blank));
            }
            if q.error is None && q.seen && line_of(lines.last()) is Blank {
                let j = choose|j: int| 0 <= j < n && !(line_of(#[trigger] lines[j]) is Blank);
                assert(!(line_of(lines[j]) is Blank));
            }
        }
    }
}

/// The first line with something wrong decides the error, which names its number. Where
/// nothing is wrong with any line, the only error is that there is no measurement.
pub proof fn law_first_fault(text: Seq<char>, readings: Seq<ReadingView>, i: int)
    requires
        0 <= i <= split_at_char(text, '\n').len(),
        forall|j: int|
            0 <= j < i ==> #[trigger] fault(split_at_char(text, '\n'), j, readings) is None,
    ensures
        ({
            let lines = split_at_char(text, '\n');
            let e = sweep_of(text, readings).error;
            &&& i < lines.len() && fault(lines, i, readings) is Some ==> e == fault(
                lines,
                i,
                readings,
            )
            &&& i == lines.len() ==> if measured(lines).len() == 0 {
                e == Some(CsvErrorView::NoDataRows)
            } else {
                e is None
            }
        }),
{
    let lines = split_at_char(text, '\n');
    let p = after_lines(lines, readings);
    lemma_fault(lines, readings);
    if p.error is Some {
        let k = choose|k: int|
            {
                &&& 0 <= k < lines.len()
                &&& #[trigger] fault(lines, k, readings) == p.error
                &&& forall|j: int| 0 <= j < k ==> #[trigger] fault(lines, j, readings) is None
            };
        if k < i {
            assert(fault(lines, k, readings) is None);
        } else if k > i {
            assert(fault(lines, i, readings) is None);
        }
    } else {
        lemma_rows_of_lines(lines, readings);
        if i < lines.len() {
            assert(fault(lines, i, readings) is None);
        }
    }
}

// ---------------------------------------------------------------------------
// Headers
// ---------------------------------------------------------------------------

proof fn lemma_notice(lines: Seq<Seq<char>>, readings: Seq<ReadingView>, i: int)
    requires
        0 <= i <= lines.len(),
        forall|j: int| 0 <= j < i ==> line_of(#[trigger] lines[j]) is Blank,
        i < lines.len() ==> !(line_of(lines[i]) is Blank),
    ensures
        ({
            let p = after_lines(lines, readings);
            &&& i == lines.len() ==> p.notice is None && !p.seen && p.error is None
            &&& i < lines.len() && p.error is None ==> p.seen
            &&& i < lines.len() ==> p.notice == match line_of(lines[i]) {
                LineView::NotInteger { field } => if looks_numeric(field) {
                    Some(((i + 1) as nat, field))
                } else {
                    None
                },
                _ => None,
            }
        }),
    decreases lines.len(),
{
    if lines.len() > 0 {
        let t = lines.drop_last();
        let m = if i < t.len() {
            i
        } else {
            t.len() as int
        };
        assert forall|j: int| 0 <= j < m implies line_of(#[trigger] t[j]) is Blank by {
            assert(t[j] == lines[j]);
        }
        if m < t.len() {
            assert(t[m] == lines[m]);
        }
        lemma_notice(t, readings, m);
        assert(lines.last() == lines[lines.len() - 1]);
    }
}

/// A notice is given just where the first line that is not blank has a second field that is
/// no number of cycles but holds a figure, a point or a minus sign; it names that line.
pub proof fn law_notice(text: Seq<char>, readings: Seq<ReadingView>, i: int)
    requires
        0 <= i <= split_at_char(text, '\n').len(),
        forall|j: int| 0 <= j < i ==> line_of(#[trigger] split_at_char(text, '\n')[j]) is Blank,
        i < split_at_char(text, '\n').len() ==> !(line_of(split_at_char(text, '\n')[i]) is Blank),
    ensures
        ({
            let lines = split_at_char(text, '\n');
            let n = sweep_of(text, readings).notice;
            &&& i == lines.len() ==> n is None
            &&& i < lines.len() && !(line_of(lines[i]) is NotInteger) ==> n is None
            &&& i < lines.len() && line_of(lines[i]) is NotInteger ==> {
                let field = line_of(lines[i])->field;
                &&& (exists|k: int|
                    0 <= k < field.len() && (is_figure(#[trigger] field[k]) || field[k] == '.'
                        || field[k] == '-')) ==> n == Some(((i + 1) as nat, field))
                &&& (forall|k: int|
                    0 <= k < field.len() ==> !(is_figure(#[trigger] field[k]) || field[k] == '.'
                        || field[k] == '-')) ==> n is None
            }
        }),
{
    let lines = split_at_char(text, '\n');
    lemma_notice(lines, readings, i);
    if i < lines.len() && line_of(lines[i]) is NotInteger {
        let field = line_of(lines[i])->field;
        if exists|k: int|
            0 <= k < field.len() && (is_figure(#[trigger] field[k]) || field[k] == '.' || field[k]
                == '-') {
            let k = choose|k: int|
                0 <= k < field.len() && (is_figure(#[trigger] field[k]) || field[k] == '.'
                    || field[k] == '-');
            assert(is_digit(field[k]) || field[k] == '.' || field[k] == '-');
            assert(looks_numeric(field));
        }
        if looks_numeric(field) {
            let k = choose|k: int|
                0 <= k < field.len() && (is_digit(#[trigger] field[k]) || field[k] == '.'
                    || field[k] == '-');
            assert(is_figure(field[k]) || field[k] == '.' || field[k] == '-');
        }
    }
}

// ---------------------------------------------------------------------------
// The texts of the weights
// ---------------------------------------------------------------------------

proof fn lemma_weight_fields(lines: Seq<Seq<char>>)
    requires
        !weight_fields_of(lines).stopped,
    ensures
        ({
            let d = measured(lines);
            let texts = weight_fields_of(lines).texts;
            &&& texts.len() == given(d)
            &&& forall|i: int|
                0 <= i < d.len() && (#[trigger] d[i])->weight is Some ==> given(d.take(i))
                    < texts.len() && texts[given(d.take(i)) as int] == d[i]->weight->Some_0
        }),
    decreases lines.len(),
{
    if lines.len() > 0 {
        let t = lines.drop_last();
        lemma_weight_fields(t);
        let c = measured(t);
        let d = measured(lines);
        let before = weight_fields_of(t).texts;
        let texts = weight_fields_of(lines).texts;
        if line_of(lines.last()) is Data {
            let x = line_of(lines.last());
            assert(d.drop_last() =~= c);
            assert forall|i: int|
                0 <= i < d.len() && (#[trigger] d[i])->weight is Some implies given(d.take(i))
                < texts.len() && texts[given(d.take(i)) as int] == d[i]->weight->Some_0 by {
                lemma_given_take(c, x, i);
                assert(c.take(c.len() as int) =~= c);
                if i < c.len() {
                    assert(d[i] == c[i]);
                    assert(texts[given(c.take(i)) as int] == before[given(c.take(i)) as int]);
                }
            }
        }
    }
}

/// The texts of the weights of a text that is read without an error are those that its
/// measurements give, in order, so that each row gets the reading of its own text.
pub proof fn law_weight_fields(text: Seq<char>, readings: Seq<ReadingView>)
    requires
        sweep_of(text, readings).error is None,
    ensures
        ({
            let d = measured(split_at_char(text, '\n'));
            let texts = weight_fields_of(split_at_char(text, '\n')).texts;
            &&& texts.len() == given(d)
            &&& forall|i: int|
                0 <= i < d.len() && (#[trigger] d[i])->weight is Some ==> given(d.take(i))
                    < texts.len() && texts[given(d.take(i)) as int] == d[i]->weight->Some_0
        }),
{
    let lines = split_at_char(text, '\n');
    law_readings_line_up(lines, readings);
    lemma_weight_fields(lines);
}

/// Whether a line can be read but for its weight, wherever it stands: it is not short, and
/// its second field is a number of cycles unless all lines before it are blank.
pub open spec fn is_readable(lines: Seq<Seq<char>>, i: int) -> bool {
    &&& !(line_of(lines[i]) is Short)
    &&& line_of(lines[i]) is NotInteger ==> forall|j: int|
        0 <= j < i ==> line_of(#[trigger] lines[j]) is Blank
}

proof fn lemma_readable(lines: Seq<Seq<char>>)
    requires
        forall|i: int| 0 <= i < lines.len() ==> #[trigger] is_readable(lines, i),
    ensures
        !weight_fields_of(lines).stopped,
        weight_fields_of(lines).seen <==> exists|j: int|
            0 <= j < lines.len() && !(line_of(#[trigger] lines[j]) is Blank),
    decreases lines.len(),
{
    if lines.len() > 0 {
        let n = lines.len() - 1;
        let t = lines.drop_last();
        assert forall|i: int| 0 <= i < t.len() implies #[trigger] is_readable(t, i) by {
            assert(is_readable(lines, i));
            assert(t[i] == lines[i]);
            if line_of(t[i]) is NotInteger {
                assert forall|j: int| 0 <= j < i implies line_of(#[trigger] t[j]) is Blank by {
                    assert(line_of(lines[j]) is Blank);
                }
            }
        }
        lemma_readable(t);
        assert(is_readable(lines, n));
        assert(lines[n] == lines.last());
        if weight_fields_of(t).seen {
            let j = choose|j: int| 0 <= j < t.len() && !(line_of(#[trigger] t[j]) is Blank);
            assert(!(line_of(lines[j]) is Blank));
        }
        if exists|j: int| 0 <= j < n && !(line_of(#[trigger] lines[j]) is Blank) {
            let j = choose|j: int| 0 <= j < n && !(line_of(#[trigger] lines[j]) is Blank);
            assert(!(line_of(t[j]) is Blank));
        }
        if !(line_of(lines.last()) is Blank) {
            assert(!(line_of(lines[n]) is Blank));
        }
    }
}

/// The texts of the weights of lines that can all be read are those that its measurements
/// give, in order.
pub proof fn law_listed_weights(lines: Seq<Seq<char>>)
    requires
        forall|i: int| 0 <= i < lines.len() ==> #[trigger] is_readable(lines, i),
    ensures
        ({
            let d = measured(lines);
            let texts = weight_fields_of(lines).texts;
            &&& texts.len() == given(d)
            &&& forall|i: int|
                0 <= i < d.len() && (#[trigger] d[i])->weight is Some ==> given(d.take(i))
                    < texts.len() && texts[given(d.take(i)) as int] == d[i]->weight->Some_0
        }),
{
    lemma_readable(lines);
    lemma_weight_fields(lines);
}

/// Nothing is listed from the first line on that cannot be read.
pub proof fn law_listing_stops(lines: Seq<Seq<char>>, i: int)
    requires
        0 <= i < lines.len(),
        forall|j: int| 0 <= j < i ==> #[trigger] is_readable(lines, j),
        !is_readable(lines, i),
    ensures
        weight_fields_of(lines).texts == weight_fields_of(lines.take(i)).texts,
        weight_fields_of(lines).stopped,
    decreases lines.len(),
{
    let n = lines.len() - 1;
    let t = lines.drop_last();
    if i < n {
        assert forall|j: int| 0 <= j <= i implies is_readable(t, j) == #[trigger] is_readable(
            lines,
            j,
        ) by {
            assert(t[j] == lines[j]);
            assert forall|k: int| 0 <= k < j implies t[k] == lines[k] by {}
            if forall|k: int| 0 <= k < j ==> line_of(#[trigger] t[k]) is Blank {
                assert forall|k: int| 0 <= k < j implies line_of(#[trigger] lines[k]) is Blank by {
                    assert(line_of(t[k]) is Blank);
                }
            }
            if forall|k: int| 0 <= k < j ==> line_of(#[trigger] lines[k]) is Blank {
                assert forall|k: int| 0 <= k < j implies line_of(#[trigger] t[k]) is Blank by {
                    assert(line_of(lines[k]) is Blank);
                }
            }
        }
        assert forall|j: int| 0 <= j < i implies #[trigger] is_readable(t, j) by {
            assert(is_readable(lines, j));
        }
        assert(is_readable(t, i) == is_readable(lines, i));
        law_listing_stops(t, i);
        assert(t.take(i) =~= lines.take(i));
    } else {
        assert(lines.take(i) =~= t);
        assert forall|j: int| 0 <= j < t.len() implies #[trigger] is_readable(t, j) by {
            assert(is_readable(lines, j));
            assert(t[j] == lines[j]);
            if line_of(t[j]) is NotInteger {
                assert forall|k: int| 0 <= k < j implies line_of(#[trigger] t[k]) is Blank by {
                    assert(line_of(lines[k]) is Blank);
                }
            }
        }
        lemma_readable(t);
        assert(lines[n] == lines.last());
        if line_of(lines[n]) is NotInteger {
            let j = choose|j: int| 0 <= j < n && !(line_of(#[trigger] lines[j]) is Blank);
            assert(!(line_of(t[j]) is Blank));
        }
    }
}

/// Readings are used as they are given, in order.
pub proof fn law_readings(s: Seq<WeightReading>)
    ensures
        readings_of(s).len() == s.len(),
        forall|i: int| #![trigger readings_of(s)[i]]
            0 <= i < s.len() ==> match s[i] {
                WeightReading::Malformed => readings_of(s)[i] is Malformed,
                WeightReading::Number { bits, shown } => readings_of(s)[i] == (
                ReadingView::Number { bits, shown: shown@ }),
            },
{
}

} // verus!
