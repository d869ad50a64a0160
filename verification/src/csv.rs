//! Reading a sweep from comma-separated text.
//!
//! A line holds a label, a cycle count and, optionally, a weight. Blank lines
//! and lines that start with `#` are skipped, and so is a header, which can only
//! be the first line that is not skipped.

use crate::partition::{positive_weights, sample_rows, total_weight, Sample};
use crate::text::{
    append_chars, decimal, from_chars, is_digit, number_of, pieces_of, read_number, split,
    split_at_char, to_chars, trim, trimmed, write_count,
};
use crate::weight::{exact_weights, is_positive, is_weight, weights_of, INFINITY_BITS, ONE_BITS};
use vstd::prelude::*;

verus! {

/// What reading the text of a weight as a floating-point number gave.
#[derive(Debug)]
pub enum WeightReading {
    /// The text is not a number.
    Malformed,
    /// The text is a number, with these bits in double precision, and written so.
    Number { bits: u64, shown: String },
}

/// The mathematical content of a `WeightReading`.
pub enum ReadingView {
    Malformed,
    Number { bits: u64, shown: Seq<char> },
}

impl View for WeightReading {
    type V = ReadingView;

    open spec fn view(&self) -> ReadingView {
        match *self {
            WeightReading::Malformed => ReadingView::Malformed,
            WeightReading::Number { bits, shown } => ReadingView::Number { bits, shown: shown@ },
        }
    }
}

/// The contents of a list of readings.
pub open spec fn readings_of(s: Seq<WeightReading>) -> Seq<ReadingView> {
    s.map_values(|r: WeightReading| r@)
}

/// Why a text is not a sweep.
#[derive(Debug)]
pub enum CsvError {
    /// A line has fewer than two columns.
    TooFewColumns { line: usize, columns: usize },
    /// The second column is not a whole number that fits sixty-four bits.
    CyclesNotInteger { line: usize, field: String },
    /// The third column is not a number.
    WeightNotNumber { line: usize, field: String },
    /// The third column is not greater than zero.
    WeightNotPositive { line: usize, shown: String },
    /// There is no line with a measurement.
    NoDataRows,
}

/// The mathematical content of a `CsvError`.
#[verifier::ext_equal]
pub enum CsvErrorView {
    TooFewColumns { line: nat, columns: nat },
    CyclesNotInteger { line: nat, field: Seq<char> },
    WeightNotNumber { line: nat, field: Seq<char> },
    WeightNotPositive { line: nat, shown: Seq<char> },
    NoDataRows,
}

impl View for CsvError {
    type V = CsvErrorView;

    open spec fn view(&self) -> CsvErrorView {
        match *self {
            CsvError::TooFewColumns { line, columns } => CsvErrorView::TooFewColumns {
                line: line as nat,
                columns: columns as nat,
            },
            CsvError::CyclesNotInteger { line, field } => CsvErrorView::CyclesNotInteger {
                line: line as nat,
                field: field@,
            },
            CsvError::WeightNotNumber { line, field } => CsvErrorView::WeightNotNumber {
                line: line as nat,
                field: field@,
            },
            CsvError::WeightNotPositive { line, shown } => CsvErrorView::WeightNotPositive {
                line: line as nat,
                shown: shown@,
            },
            CsvError::NoDataRows => CsvErrorView::NoDataRows,
        }
    }
}

/// One line of measurement.
#[derive(Debug)]
pub struct Row {
    pub label: String,
    pub cycles: u64,
    /// The prior weight, as the bits of a floating-point number of double precision.
    pub bits: u64,
}

/// The contents of a list of rows.
pub open spec fn rows_of(s: Seq<Row>) -> Seq<(Seq<char>, u64, u64)> {
    s.map_values(|r: Row| (r.label@, r.cycles, r.bits))
}

/// A header that looks as if it was meant to be a measurement.
#[derive(Debug)]
pub struct HeaderNotice {
    pub line: usize,
    pub field: String,
}

/// The rows of a sweep, and whether any of them gave a weight.
#[derive(Debug)]
pub struct Sweep {
    pub rows: Vec<Row>,
    pub weighted: bool,
}

/// What a single line says.
pub enum LineView {
    /// Nothing: the line is blank or a comment.
    Blank,
    /// Too few columns.
    Short { columns: nat },
    /// A second column that is not a cycle count.
    NotInteger { field: Seq<char> },
    /// A measurement, with the text of its weight if it has one.
    Data { label: Seq<char>, cycles: u64, weight: Option<Seq<char>> },
}

/// The columns of a line, each without surrounding white space.
pub open spec fn columns_of(line: Seq<char>) -> Seq<Seq<char>> {
    split_at_char(line, ',').map_values(|f: Seq<char>| trimmed(f))
}

/// Reads a single line.
pub open spec fn line_of(raw: Seq<char>) -> LineView {
    let line = trimmed(raw);
    let f = columns_of(line);
    if line.len() == 0 || line[0] == '#' {
        LineView::Blank
    } else if f.len() < 2 {
        LineView::Short { columns: f.len() }
    } else {
        match number_of(f[1], u64::MAX as nat) {
            None => LineView::NotInteger { field: f[1] },
            Some(cycles) => LineView::Data {
                label: f[0],
                cycles: cycles as u64,
                weight: if f.len() >= 3 && f[2].len() > 0 {
                    Some(f[2])
                } else {
                    None
                },
            },
        }
    }
}

/// Whether a field holds a character that numbers are written with.
pub open spec fn looks_numeric(f: Seq<char>) -> bool {
    exists|i: int| 0 <= i < f.len() && (is_digit(#[trigger] f[i]) || f[i] == '.' || f[i] == '-')
}

/// How far reading has come.
#[verifier::ext_equal]
pub struct Progress {
    pub rows: Seq<(Seq<char>, u64, u64)>,
    pub weighted: bool,
    /// Whether a line that is not blank was read.
    pub seen: bool,
    /// How many weights were read.
    pub used: nat,
    pub notice: Option<(nat, Seq<char>)>,
    pub error: Option<CsvErrorView>,
}

pub open spec fn at_start() -> Progress {
    Progress {
        rows: Seq::empty(),
        weighted: false,
        seen: false,
        used: 0,
        notice: None,
        error: None,
    }
}

/// The reading of the `i`-th weight; what was not read is malformed.
pub open spec fn reading_at(readings: Seq<ReadingView>, i: nat) -> ReadingView {
    if i < readings.len() {
        readings[i as int]
    } else {
        ReadingView::Malformed
    }
}

/// Reads one more line.
pub open spec fn after_line(
    p: Progress,
    raw: Seq<char>,
    line: nat,
    readings: Seq<ReadingView>,
) -> Progress {
    match line_of(raw) {
        LineView::Blank => p,
        LineView::Short { columns } => Progress {
            error: Some(CsvErrorView::TooFewColumns { line, columns }),
            ..p
        },
        LineView::NotInteger { field } => if p.seen {
            Progress { error: Some(CsvErrorView::CyclesNotInteger { line, field }), ..p }
        } else {
            Progress {
                seen: true,
                notice: if looks_numeric(field) {
                    Some((line, field))
                } else {
                    None
                },
                ..p
            }
        },
        LineView::Data { label, cycles, weight } => match weight {
            None => Progress {
                seen: true,
                rows: p.rows.push((label, cycles, ONE_BITS)),
                ..p
            },
            Some(field) => match reading_at(readings, p.used) {
                ReadingView::Malformed => Progress {
                    error: Some(CsvErrorView::WeightNotNumber { line, field }),
                    ..p
                },
                ReadingView::Number { bits, shown } => if is_positive(bits) {
                    Progress {
                        seen: true,
                        weighted: true,
                        used: p.used + 1,
                        rows: p.rows.push((label, cycles, bits)),
                        ..p
                    }
                } else {
                    Progress {
                        error: Some(CsvErrorView::WeightNotPositive { line, shown }),
                        ..p
                    }
                },
            },
        },
    }
}

/// Reads lines up to the first that is wrong.
pub open spec fn after_lines(lines: Seq<Seq<char>>, readings: Seq<ReadingView>) -> Progress
    decreases lines.len(),
{
    if lines.len() == 0 {
        at_start()
    } else {
        let p = after_lines(lines.drop_last(), readings);
        if p.error is Some {
            p
        } else {
            after_line(p, lines.last(), lines.len(), readings)
        }
    }
}

/// Reads a whole text. A text without a measurement is an error.
pub open spec fn sweep_of(text: Seq<char>, readings: Seq<ReadingView>) -> Progress {
    let p = after_lines(split_at_char(text, '\n'), readings);
    if p.error is None && p.rows.len() == 0 {
        Progress { error: Some(CsvErrorView::NoDataRows), ..p }
    } else {
        p
    }
}

/// The texts of the weights, in order, up to the first line that is wrong for
/// another reason than its weight.
pub struct Fields {
    pub seen: bool,
    pub stopped: bool,
    pub texts: Seq<Seq<char>>,
}

pub open spec fn weight_fields_of(lines: Seq<Seq<char>>) -> Fields
    decreases lines.len(),
{
    if lines.len() == 0 {
        Fields { seen: false, stopped: false, texts: Seq::empty() }
    } else {
        let p = weight_fields_of(lines.drop_last());
        if p.stopped {
            p
        } else {
            match line_of(lines.last()) {
                LineView::Blank => p,
                LineView::Short { columns } => Fields { stopped: true, ..p },
                LineView::NotInteger { field } => Fields { seen: true, stopped: p.seen, ..p },
                LineView::Data { label, cycles, weight } => Fields {
                    seen: true,
                    texts: match weight {
                        Some(field) => p.texts.push(field),
                        None => p.texts,
                    },
                    ..p
                },
            }
        }
    }
}

/// A single line in executable form.
enum Line {
    Blank,
    Short { columns: usize },
    NotInteger { field: String },
    Data { label: String, cycles: u64, weight: Option<String> },
}

spec fn line_view(l: Line) -> LineView {
    match l {
        Line::Blank => LineView::Blank,
        Line::Short { columns } => LineView::Short { columns: columns as nat },
        Line::NotInteger { field } => LineView::NotInteger { field: field@ },
        Line::Data { label, cycles, weight } => LineView::Data {
            label: label@,
            cycles,
            weight: match weight {
                Some(w) => Some(w@),
                None => None,
            },
        },
    }
}

fn read_line(raw: &Vec<char>) -> (r: Line)
    ensures
        line_view(r) == line_of(raw@),
{
    let line: Vec<char> = trim(raw);
    if line.len() == 0 || line[0] == '#' {
        return Line::Blank;
    }
    let f: Vec<Vec<char>> = split(&line, ',');
    let ghost cols = columns_of(line@);
    assert(cols.len() == f@.len());
    if f.len() < 2 {
        return Line::Short { columns: f.len() };
    }
    let second: Vec<char> = trim(&f[1]);
    assert(cols[1] == second@) by {
        assert(pieces_of(f@)[1] == f@[1]@);
    }
    match read_number(&second, u64::MAX) {
        None => Line::NotInteger { field: from_chars(&second) },
        Some(cycles) => {
            let first: Vec<char> = trim(&f[0]);
            assert(cols[0] == first@) by {
                assert(pieces_of(f@)[0] == f@[0]@);
            }
            let label: String = from_chars(&first);
            if f.len() >= 3 {
                let third: Vec<char> = trim(&f[2]);
                assert(cols[2] == third@) by {
                    assert(pieces_of(f@)[2] == f@[2]@);
                }
                if third.len() > 0 {
                    return Line::Data { label, cycles, weight: Some(from_chars(&third)) };
                }
            }
            Line::Data { label, cycles, weight: None }
        },
    }
}

fn numeric_look(f: &str) -> (r: bool)
    ensures
        r == looks_numeric(f@),
{
    let v: Vec<char> = to_chars(f);
    let mut i: usize = 0;
    while i < v.len()
        invariant
            v@ == f@,
            i <= v@.len(),
            forall|j: int|
                0 <= j < i ==> !(is_digit(#[trigger] f@[j]) || f@[j] == '.' || f@[j] == '-'),
        decreases v.len() - i,
    {
        let c: char = v[i];
        if ('0' <= c && c <= '9') || c == '.' || c == '-' {
            assert(is_digit(f@[i as int]) || f@[i as int] == '.' || f@[i as int] == '-');
            return true;
        }
        i = i + 1;
    }
    false
}

/// The texts of a list of strings.
pub open spec fn texts_of(s: Seq<String>) -> Seq<Seq<char>> {
    s.map_values(|x: String| x@)
}

/// Lists the texts of the weights of a sweep, in order, for reading as numbers.
pub fn weight_fields(text: &str) -> (r: Vec<String>)
    ensures
        texts_of(r@) == weight_fields_of(split_at_char(text@, '\n')).texts,
{
    let lines: Vec<Vec<char>> = split(&to_chars(text), '\n');
    let ghost all = pieces_of(lines@);
    let mut r: Vec<String> = Vec::new();
    let mut seen: bool = false;
    let mut stopped: bool = false;
    let mut i: usize = 0;
    proof {
        assert(all.take(0) =~= Seq::empty());
        assert(texts_of(r@) =~= Seq::empty());
    }
    while i < lines.len()
        invariant
            all == pieces_of(lines@),
            i <= lines@.len(),
            seen == weight_fields_of(all.take(i as int)).seen,
            stopped == weight_fields_of(all.take(i as int)).stopped,
            texts_of(r@) == weight_fields_of(all.take(i as int)).texts,
        decreases lines.len() - i,
    {
        proof {
            assert(all.take(i + 1).drop_last() =~= all.take(i as int));
            assert(all.take(i + 1).last() == lines@[i as int]@);
        }
        if !stopped {
            match read_line(&lines[i]) {
                Line::Blank => {},
                Line::Short { columns } => {
                    stopped = true;
                },
                Line::NotInteger { field } => {
                    stopped = seen;
                    seen = true;
                },
                Line::Data { label, cycles, weight } => {
                    seen = true;
                    if let Some(field) = weight {
                        let ghost before = texts_of(r@);
                        let ghost now = field@;
                        r.push(field);
                        assert(texts_of(r@) =~= before.push(now));
                    }
                },
            }
        }
        i = i + 1;
    }
    assert(all.take(i as int) =~= all);
    r
}

/// Whether a notice in executable form is the given one.
pub open spec fn notice_of(n: Option<HeaderNotice>) -> Option<(nat, Seq<char>)> {
    match n {
        Some(h) => Some((h.line as nat, h.field@)),
        None => None,
    }
}

/// Whether the outcome of reading is the given one.
pub open spec fn outcome_is(r: Result<Sweep, CsvError>, p: Progress) -> bool {
    match r {
        Ok(s) => p.error is None && rows_of(s.rows@) == p.rows && s.weighted == p.weighted,
        Err(e) => p.error == Some(e@),
    }
}

/// Reads a sweep, given what reading the texts of its weights gave.
///
/// The first part of the result is a header that looks like a measurement; it is
/// there whether or not the rest of the text can be read.
pub fn parse_csv(text: &str, readings: &Vec<WeightReading>) -> (r: (
    Option<HeaderNotice>,
    Result<Sweep, CsvError>,
))
    ensures
        notice_of(r.0) == sweep_of(text@, readings_of(readings@)).notice,
        outcome_is(r.1, sweep_of(text@, readings_of(readings@))),
        ({
            let p = sweep_of(text@, readings_of(readings@));
            match r.1 {
                Ok(s) => {
                    &&& p.error is None
                    &&& s.weighted == p.weighted
                    &&& s.rows@.len() == p.rows.len()
                    &&& forall|i: int| #![trigger s.rows@[i]]
                        0 <= i < s.rows@.len() ==> (
                            s.rows@[i].label@,
                            s.rows@[i].cycles,
                            s.rows@[i].bits,
                        ) == p.rows[i]
                },
                Err(CsvError::TooFewColumns { line, columns }) => p.error == Some(
                    CsvErrorView::TooFewColumns { line: line as nat, columns: columns as nat },
                ),
                Err(CsvError::CyclesNotInteger { line, field }) => p.error == Some(
                    CsvErrorView::CyclesNotInteger { line: line as nat, field: field@ },
                ),
                Err(CsvError::WeightNotNumber { line, field }) => p.error == Some(
                    CsvErrorView::WeightNotNumber { line: line as nat, field: field@ },
                ),
                Err(CsvError::WeightNotPositive { line, shown }) => p.error == Some(
                    CsvErrorView::WeightNotPositive { line: line as nat, shown: shown@ },
                ),
                Err(CsvError::NoDataRows) => p.error == Some(CsvErrorView::NoDataRows),
            }
        }),
        match r.0 {
            Some(h) => sweep_of(text@, readings_of(readings@)).notice == Some(
                (h.line as nat, h.field@),
            ),
            None => sweep_of(text@, readings_of(readings@)).notice is None,
        },
{
    let lines: Vec<Vec<char>> = split(&to_chars(text), '\n');
    let ghost all = pieces_of(lines@);
    let ghost reads = readings_of(readings@);
    let mut rows: Vec<Row> = Vec::new();
    let mut weighted: bool = false;
    let mut seen: bool = false;
    let mut used: usize = 0;
    let mut notice: Option<HeaderNotice> = None;
    let mut i: usize = 0;
    proof {
        assert(all.take(0) =~= Seq::empty());
        assert(rows_of(rows@) =~= Seq::empty());
    }
    while i < lines.len()
        invariant
            all == pieces_of(lines@),
            all == split_at_char(text@, '\n'),
            reads == readings_of(readings@),
            i <= lines@.len(),
            used <= readings@.len(),
            after_lines(all.take(i as int), reads) == (Progress {
                rows: rows_of(rows@),
                weighted,
                seen,
                used: used as nat,
                notice: notice_of(notice),
                error: None,
            }),
        decreases lines.len() - i,
    {
        let ghost before = after_lines(all.take(i as int), reads);
        proof {
            assert(all.take(i + 1).drop_last() =~= all.take(i as int));
            assert(all.take(i + 1).last() == lines@[i as int]@);
        }
        let number: usize = i + 1;
        let line: Line = read_line(&lines[i]);
        let mut failed: Option<CsvError> = None;
        match line {
            Line::Blank => {},
            Line::Short { columns } => {
                failed = Some(CsvError::TooFewColumns { line: number, columns });
            },
            Line::NotInteger { field } => {
                if seen {
                    failed = Some(CsvError::CyclesNotInteger { line: number, field });
                } else {
                    seen = true;
                    if numeric_look(&field) {
                        notice = Some(HeaderNotice { line: number, field });
                    } else {
                        notice = None;
                    }
                }
            },
            Line::Data { label, cycles, weight } => {
                let ghost old_rows = rows_of(rows@);
                let ghost name = label@;
                match weight {
                    None => {
                        seen = true;
                        rows.push(Row { label, cycles, bits: ONE_BITS });
                        assert(rows_of(rows@) =~= old_rows.push((name, cycles, ONE_BITS)));
                    },
                    Some(field) => {
                        if used < readings.len() {
                            assert(reads[used as int] == readings@[used as int]@);
                            match &readings[used] {
                                WeightReading::Malformed => {
                                    failed = Some(
                                        CsvError::WeightNotNumber { line: number, field },
                                    );
                                },
                                WeightReading::Number { bits, shown } => {
                                    let b: u64 = *bits;
                                    if b > 0 && b <= INFINITY_BITS {
                                        seen = true;
                                        weighted = true;
                                        used = used + 1;
                                        rows.push(Row { label, cycles, bits: b });
                                        assert(rows_of(rows@) =~= old_rows.push((name, cycles, b)));
                                    } else {
                                        failed = Some(
                                            CsvError::WeightNotPositive {
                                                line: number,
                                                shown: shown.clone(),
                                            },
                                        );
                                    }
                                },
                            }
                        } else {
                            failed = Some(CsvError::WeightNotNumber { line: number, field });
                        }
                    },
                }
            },
        }
        i = i + 1;
        if let Some(e) = failed {
            proof {
                let p = after_lines(all.take(i as int), reads);
                assert(p.error == Some(e@));
                lemma_error_stays(all, reads, i as int);
                assert(all.take(all.len() as int) =~= all);
            }
            return (notice, Err(e));
        }
    }
    proof {
        assert(all.take(i as int) =~= all);
    }
    if rows.len() == 0 {
        return (notice, Err(CsvError::NoDataRows));
    }
    (notice, Ok(Sweep { rows, weighted }))
}

/// Once a line is wrong, the lines after it change nothing.
proof fn lemma_error_stays(lines: Seq<Seq<char>>, reads: Seq<ReadingView>, i: int)
    requires
        0 <= i <= lines.len(),
        after_lines(lines.take(i), reads).error is Some,
    ensures
        after_lines(lines, reads) == after_lines(lines.take(i), reads),
    decreases lines.len(),
{
    if i < lines.len() {
        let t = lines.drop_last();
        assert(t.take(i) =~= lines.take(i));
        lemma_error_stays(t, reads, i);
    } else {
        assert(lines.take(i) =~= lines);
    }
}

/// The bits of the weights of a list of rows.
pub open spec fn bits_of_rows(s: Seq<Row>) -> Seq<u64> {
    s.map_values(|r: Row| r.bits)
}

/// The samples of a sweep: its cycle counts with the exact weights.
pub open spec fn samples_of(s: Seq<Row>) -> Seq<(u64, nat)> {
    Seq::new(s.len(), |i: int| (s[i].cycles, weights_of(bits_of_rows(s))[i]))
}

proof fn lemma_total_positive(rows: Seq<(u64, nat)>)
    requires
        rows.len() > 0,
        rows.last().1 > 0,
    ensures
        total_weight(rows) > 0,
{
}

/// Turns the rows of a sweep into samples, unless a weight is infinite.
pub fn sweep_samples(rows: &Vec<Row>) -> (r: Option<Vec<Sample>>)
    ensures
        r is Some <==> forall|i: int|
            0 <= i < rows@.len() ==> is_weight((#[trigger] rows@[i]).bits),
        r is Some ==> sample_rows(r->Some_0@) == samples_of(rows@),
        r is Some ==> positive_weights(sample_rows(r->Some_0@)),
        r is Some && rows@.len() > 0 ==> total_weight(sample_rows(r->Some_0@)) > 0,
{
    let mut bits: Vec<u64> = Vec::new();
    let mut i: usize = 0;
    while i < rows.len()
        invariant
            i <= rows@.len(),
            bits@ =~= bits_of_rows(rows@).take(i as int),
        decreases rows.len() - i,
    {
        bits.push(rows[i].bits);
        i = i + 1;
    }
    let ghost all = bits_of_rows(rows@);
    assert(bits@ =~= all);
    proof {
        assert forall|j: int| 0 <= j < rows@.len() implies #[trigger] all[j] == rows@[j].bits by {}
    }
    match exact_weights(&bits) {
        None => {
            proof {
                let j = choose|j: int| 0 <= j < bits@.len() && !is_weight(#[trigger] bits@[j]);
                assert(!is_weight(rows@[j].bits));
            }
            None
        },
        Some(weights) => {
            proof {
                assert forall|j: int| 0 <= j < rows@.len() implies is_weight(
                    (#[trigger] rows@[j]).bits,
                ) by {
                    assert(is_weight(bits@[j]));
                }
            }
            let mut r: Vec<Sample> = Vec::new();
            let mut k: usize = 0;
            while k < rows.len()
                invariant
                    k <= rows@.len(),
                    weights@.len() == rows@.len(),
                    bits@ == bits_of_rows(rows@),
                    forall|j: int| #![trigger weights@[j]]
                        0 <= j < weights@.len() ==> weights@[j]@ == weights_of(bits@)[j]
                            && weights@[j]@ > 0,
                    r@.len() == k,
                    forall|j: int| #![trigger r@[j]]
                        0 <= j < k ==> r@[j].cycles == rows@[j].cycles && r@[j].weight@
                            == weights@[j]@,
                decreases rows.len() - k,
            {
                r.push(Sample { cycles: rows[k].cycles, weight: weights[k].copy() });
                k = k + 1;
            }
            proof {
                assert(sample_rows(r@) =~= samples_of(rows@));
                assert forall|j: int| 0 <= j < r@.len() implies (
                #[trigger] sample_rows(r@)[j]).1 > 0 by {
                    assert(r@[j].weight@ == weights@[j]@);
                }
                if rows@.len() > 0 {
                    let last = rows@.len() - 1;
                    assert(r@[last].weight@ == weights@[last]@);
                    assert(sample_rows(r@).last().1 == r@[last].weight@);
                    lemma_total_positive(sample_rows(r@));
                }
            }
            Some(r)
        },
    }
}

/// How a string is quoted: in double quotes, with special characters escaped.
pub uninterp spec fn quoted(s: Seq<char>) -> Seq<char>;

/// Quotes a string with the `Debug` formatting of `str`, which is a function of
/// the characters of the string alone; the contract names its result.
#[verifier::external_body]
fn quote(s: &str) -> (r: String)
    ensures
        r@ == quoted(s@),
{
    format!("{:?}", s)
}

/// The start of a message about a line.
pub open spec fn line_prefix(line: nat) -> Seq<char> {
    "line "@ + decimal(line) + ": "@
}

/// The message of an error whose field, if it has one, is written as `field`.
pub open spec fn error_text(e: CsvErrorView, field: Seq<char>) -> Seq<char> {
    match e {
        CsvErrorView::TooFewColumns { line, columns } => line_prefix(line)
            + "need at least 2 columns, got "@ + decimal(columns),
        CsvErrorView::CyclesNotInteger { line, .. } => line_prefix(line) + "cycles column "@
            + field + " is not an integer"@,
        CsvErrorView::WeightNotNumber { line, .. } => line_prefix(line) + "weight "@ + field
            + " is not a number"@,
        CsvErrorView::WeightNotPositive { line, shown } => line_prefix(line)
            + "weight must be positive, got "@ + shown,
        CsvErrorView::NoDataRows => "no data rows"@,
    }
}

/// The field that an error quotes.
pub open spec fn error_field(e: CsvErrorView) -> Seq<char> {
    match e {
        CsvErrorView::CyclesNotInteger { field, .. } => field,
        CsvErrorView::WeightNotNumber { field, .. } => field,
        _ => Seq::empty(),
    }
}

fn start_message(line: usize) -> (r: String)
    ensures
        r@ == line_prefix(line as nat),
{
    let mut r: String = String::new();
    r.append("line ");
    append_chars(&mut r, &write_count(line));
    r.append(": ");
    assert(r@ =~= line_prefix(line as nat));
    r
}

impl CsvError {
    /// The message of the error, given how its field is quoted.
    pub fn message_with(&self, field: &str) -> (r: String)
        ensures
            r@ == error_text(self@, field@),
    {
        let mut r: String = String::new();
        match self {
            CsvError::TooFewColumns { line, columns } => {
                r = start_message(*line);
                r.append("need at least 2 columns, got ");
                append_chars(&mut r, &write_count(*columns));
            },
            CsvError::CyclesNotInteger { line, field: _ } => {
                r = start_message(*line);
                r.append("cycles column ");
                r.append(field);
                r.append(" is not an integer");
            },
            CsvError::WeightNotNumber { line, field: _ } => {
                r = start_message(*line);
                r.append("weight ");
                r.append(field);
                r.append(" is not a number");
            },
            CsvError::WeightNotPositive { line, shown } => {
                r = start_message(*line);
                r.append("weight must be positive, got ");
                r.append(shown.as_str());
            },
            CsvError::NoDataRows => {
                r.append("no data rows");
            },
        }
        assert(r@ =~= error_text(self@, field@));
        r
    }

    /// The message of the error.
    pub fn message(&self) -> (r: String)
        ensures
            r@ == error_text(self@, quoted(error_field(self@))),
    {
        match self {
            CsvError::CyclesNotInteger { line: _, field } => self.message_with(
                quote(field.as_str()).as_str(),
            ),
            CsvError::WeightNotNumber { line: _, field } => self.message_with(
                quote(field.as_str()).as_str(),
            ),
            _ => self.message_with(""),
        }
    }
}

/// The message about a header that looks like a measurement, whose field is written as `field`.
pub open spec fn notice_text(line: nat, field: Seq<char>) -> Seq<char> {
    "skipping line "@ + decimal(line) + " as a header, but "@ + field
        + " looks like it was meant to be a number -- check that no data row was dropped"@
}

impl HeaderNotice {
    /// The message of the notice, given how its field is quoted.
    pub fn message_with(&self, field: &str) -> (r: String)
        ensures
            r@ == notice_text(self.line as nat, field@),
    {
        let mut r: String = String::new();
        r.append("skipping line ");
        append_chars(&mut r, &write_count(self.line));
        r.append(" as a header, but ");
        r.append(field);
        r.append(" looks like it was meant to be a number -- check that no data row was dropped");
        assert(r@ =~= notice_text(self.line as nat, field@));
        r
    }

    /// The message of the notice.
    pub fn message(&self) -> (r: String)
        ensures
            r@ == notice_text(self.line as nat, quoted(self.field@)),
    {
        self.message_with(quote(self.field.as_str()).as_str())
    }
}

} // verus!
