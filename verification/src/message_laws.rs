//! What a reader sees in the messages about a text.

use crate::csv::{error_field, error_text, notice_text, CsvErrorView};
use crate::reading::{
    displays_whole, is_blank, is_word, law_decimal_reads, lemma_decimal_word, lemma_word,
    lemma_words_join, words,
};
use crate::table_laws::lemma_blank_words;
use crate::text::decimal;
use vstd::prelude::*;

verus! {

proof fn lemma_prefix_words(line: nat, rest: Seq<char>)
    ensures
        words("line "@ + decimal(line) + ": "@ + rest) == words("line "@).push(
            decimal(line).push(':'),
        ) + words(rest),
{
    let d = decimal(line);
    let y = d.push(':');
    lemma_decimal_word(line);
    assert(is_word(y)) by {
        assert forall|i: int| 0 <= i < y.len() implies !is_blank(#[trigger] y[i]) by {
            if i < d.len() {
                assert(y[i] == d[i]);
            }
        }
    }
    reveal_strlit("line ");
    reveal_strlit(": ");
    reveal_strlit(" ");
    lemma_word(y);
    let e = Seq::<Seq<char>>::empty();
    lemma_blank_words();
    lemma_words_join("line "@, y);
    assert(words("line "@) + seq![y] =~= words("line "@).push(y));
    let t = "line "@ + y;
    lemma_words_join(t, " "@);
    assert(words(t) + e =~= words(t));
    lemma_words_join(t + " "@, rest);
    assert("line "@ + d + ": "@ + rest =~= t + " "@ + rest);
}

/// The words of a text between two others, with blanks where they meet.
proof fn lemma_between(a: Seq<char>, field: Seq<char>, b: Seq<char>)
    requires
        a.len() > 0,
        is_blank(a.last()),
        b.len() > 0,
        is_blank(b[0]),
    ensures
        words(a + field + b) == words(a) + words(field) + words(b),
{
    lemma_words_join(a, field);
    lemma_words_join(a + field, b);
}

/// A message about a line starts with the number of that line, and goes on with what is
/// wrong: how many columns there are, or the field as it is written, or the weight as it is
/// shown.
pub proof fn law_error_message(e: CsvErrorView, field: Seq<char>)
    ensures
        ({
            let ws = words(error_text(e, field));
            match e {
                CsvErrorView::TooFewColumns { line, columns } => {
                    &&& displays_whole(decimal(line), line as int)
                    &&& displays_whole(decimal(columns), columns as int)
                    &&& ws == words("line "@).push(decimal(line).push(':')) + words(
                        "need at least 2 columns, got "@,
                    ).push(decimal(columns))
                },
                CsvErrorView::CyclesNotInteger { line, .. } => {
                    &&& displays_whole(decimal(line), line as int)
                    &&& ws == words("line "@).push(decimal(line).push(':')) + (words(
                        "cycles column "@,
                    ) + words(field) + words(" is not an integer"@))
                },
                CsvErrorView::WeightNotNumber { line, .. } => {
                    &&& displays_whole(decimal(line), line as int)
                    &&& ws == words("line "@).push(decimal(line).push(':')) + (words("weight "@)
                        + words(field) + words(" is not a number"@))
                },
                CsvErrorView::WeightNotPositive { line, shown } => {
                    &&& displays_whole(decimal(line), line as int)
                    &&& ws == words("line "@).push(decimal(line).push(':')) + (words(
                        "weight must be positive, got "@,
                    ) + words(shown))
                },
                CsvErrorView::NoDataRows => ws == words("no data rows"@),
            }
        }),
        e matches CsvErrorView::CyclesNotInteger { field: f, .. } ==> error_field(e) == f,
        e matches CsvErrorView::WeightNotNumber { field: f, .. } ==> error_field(e) == f,
{
    match e {
        CsvErrorView::TooFewColumns { line, columns } => {
            let a = "need at least 2 columns, got "@;
            let d = decimal(columns);
            law_decimal_reads(line);
            law_decimal_reads(columns);
            lemma_decimal_word(columns);
            lemma_word(d);
            reveal_strlit("need at least 2 columns, got ");
            lemma_words_join(a, d);
            assert(words(a) + seq![d] =~= words(a).push(d));
            lemma_prefix_words(line, a + d);
            assert(error_text(e, field) =~= "line "@ + decimal(line) + ": "@ + (a + d));
        },
        CsvErrorView::CyclesNotInteger { line, .. } => {
            let a = "cycles column "@;
            let b = " is not an integer"@;
            law_decimal_reads(line);
            reveal_strlit("cycles column ");
            reveal_strlit(" is not an integer");
            lemma_between(a, field, b);
            lemma_prefix_words(line, a + field + b);
            assert(error_text(e, field) =~= "line "@ + decimal(line) + ": "@ + (a + field + b));
        },
        CsvErrorView::WeightNotNumber { line, .. } => {
            let a = "weight "@;
            let b = " is not a number"@;
            law_decimal_reads(line);
            reveal_strlit("weight ");
            reveal_strlit(" is not a number");
            lemma_between(a, field, b);
            lemma_prefix_words(line, a + field + b);
            assert(error_text(e, field) =~= "line "@ + decimal(line) + ": "@ + (a + field + b));
        },
        CsvErrorView::WeightNotPositive { line, shown } => {
            let a = "weight must be positive, got "@;
            law_decimal_reads(line);
            reveal_strlit("weight must be positive, got ");
            lemma_words_join(a, shown);
            lemma_prefix_words(line, a + shown);
            assert(error_text(e, field) =~= "line "@ + decimal(line) + ": "@ + (a + shown));
        },
        CsvErrorView::NoDataRows => {},
    }
}

/// A notice names the line that is taken for a header, and the field as it is written.
pub proof fn law_notice_message(line: nat, field: Seq<char>)
    ensures
        displays_whole(decimal(line), line as int),
        words(notice_text(line, field)) == words("skipping line "@).push(decimal(line)) + words(
            " as a header, but "@,
        ) + words(field) + words(
            " looks like it was meant to be a number -- check that no data row was dropped"@,
        ),
{
    let a = "skipping line "@;
    let b = " as a header, but "@;
    let c = " looks like it was meant to be a number -- check that no data row was dropped"@;
    let d = decimal(line);
    law_decimal_reads(line);
    lemma_decimal_word(line);
    lemma_word(d);
    assert(a.len() > 0 && is_blank(a.last())) by {
        reveal_strlit("skipping line ");
    }
    assert(b.len() > 0 && is_blank(b[0]) && is_blank(b.last())) by {
        reveal_strlit(" as a header, but ");
    }
    assert(c.len() > 0 && is_blank(c[0])) by {
        reveal_strlit(
            " looks like it was meant to be a number -- check that no data row was dropped",
        );
    }
    lemma_words_join(a, d);
    assert(words(a) + seq![d] =~= words(a).push(d));
    lemma_words_join(a + d, b);
    assert((a + d + b).last() == b.last());
    lemma_words_join(a + d + b, field);
    lemma_words_join(a + d + b + field, c);
}

} // verus!
