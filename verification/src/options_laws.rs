//! What holds of every command line.

use crate::options::{command_of, option_from, CommandView, OptionValue};
use crate::reading::{denotes, is_figure, is_figures, law_decimal_reads, law_number_of, numeral};
use crate::text::{decimal, number_of};
use vstd::prelude::*;

verus! {

/// The word after the name of the program decides which command it is, whatever follows;
/// a word that is no command is handed back.
pub proof fn law_command_words(args: Seq<Seq<char>>)
    ensures
        args.len() < 2 <==> command_of(args) is Missing,
        args.len() >= 2 ==> {
            let word = args[1];
            let c = command_of(args);
            &&& word == "demo"@ <==> c is Demo
            &&& word == "selftest"@ <==> c is Selftest
            &&& word == "-h"@ || word == "--help"@ || word == "help"@ <==> c is Help
            &&& word == "report"@ <==> c is Report || c is ReportWithoutPath
            &&& word == "buckets"@ <==> c is Buckets || c is BucketsWithoutPath || c is BadMaxK
            &&& word == "scale"@ <==> c is Scale || c is ScaleWithoutPath || c is BadN
                || c is NOutOfRange
            &&& c matches CommandView::Unknown { text } ==> text == word
        },
{
    reveal_strlit("demo");
    reveal_strlit("selftest");
    reveal_strlit("report");
    reveal_strlit("buckets");
    reveal_strlit("scale");
    reveal_strlit("-h");
    reveal_strlit("--help");
    reveal_strlit("help");
    assert("demo"@[0] == 'd' && "help"@[0] == 'h');
    assert("report"@[0] == 'r' && "--help"@[0] == '-');
    assert("demo"@.len() == 4 && "help"@.len() == 4 && "report"@.len() == 6);
    assert("--help"@.len() == 6 && "-h"@.len() == 2 && "scale"@.len() == 5);
    assert("selftest"@.len() == 8 && "buckets"@.len() == 7);
    if args.len() >= 2 {
        let word = args[1];
        assert(word == "demo"@ ==> word != "help"@);
        assert(word == "report"@ ==> word != "--help"@);
    }
}

/// A command on a file needs a path, and its path is the argument after it.
pub proof fn law_paths(args: Seq<Seq<char>>)
    requires
        args.len() >= 2,
        args[1] == "report"@ || args[1] == "buckets"@ || args[1] == "scale"@,
    ensures
        ({
            let c = command_of(args);
            &&& args.len() == 2 <==> c is ReportWithoutPath || c is BucketsWithoutPath
                || c is ScaleWithoutPath
            &&& args[1] == "report"@ && args.len() > 2 ==> c == (CommandView::Report {
                path: args[2],
            })
            &&& c matches CommandView::Buckets { path, .. } ==> path == args[2]
            &&& c matches CommandView::Scale { path, .. } ==> path == args[2]
        }),
{
    law_command_words(args);
}

/// What follows is read as it would be after arguments that are all used up.
proof fn lemma_option_prefix(
    args: Seq<Seq<char>>,
    more: Seq<Seq<char>>,
    i: int,
    flag: Seq<char>,
    least: nat,
    current: nat,
)
    requires
        0 <= i <= args.len(),
        args.len() == i || args.last() != flag,
    ensures
        match option_from(args, i, flag, least, current) {
            OptionValue::Value { number } => option_from(args + more, i, flag, least, current)
                == option_from(args + more, args.len() as int, flag, least, number),
            OptionValue::Bad { text } => option_from(args + more, i, flag, least, current) == (
            OptionValue::Bad { text }),
        },
    decreases args.len() - i,
{
    let all = args + more;
    if i < args.len() {
        assert(all[i] == args[i]);
        if args[i] == flag {
            assert(i + 1 < args.len());
            assert(all[i + 1] == args[i + 1]);
            match number_of(args[i + 1], usize::MAX as nat) {
                Some(number) => {
                    lemma_option_prefix(args, more, i + 2, flag, least, number);
                },
                None => {},
            }
        } else {
            lemma_option_prefix(args, more, i + 1, flag, least, current);
        }
    }
}

/// One option at the end.
proof fn lemma_option_last(
    args: Seq<Seq<char>>,
    flag: Seq<char>,
    value: Seq<char>,
    least: nat,
    current: nat,
)
    ensures
        option_from(args + seq![flag, value], args.len() as int, flag, least, current) == match (
        number_of(value, usize::MAX as nat)) {
            Some(number) => if number >= least {
                OptionValue::Value { number }
            } else {
                OptionValue::Bad { text: value }
            },
            None => OptionValue::Bad { text: value },
        },
{
    let all = args + seq![flag, value];
    let n = args.len() as int;
    assert(all[n] == flag && all[n + 1] == value);
    assert(all.len() == n + 2);
    match number_of(value, usize::MAX as nat) {
        Some(number) => {
            assert(option_from(all, n + 2, flag, least, number) == (OptionValue::Value { number }));
        },
        None => {},
    }
}

/// The last `--max-k` counts: with a positive number behind it that fits, it asks for
/// just that many buckets, whatever was asked for before.
pub proof fn law_max_k(args: Seq<Seq<char>>, v: nat)
    requires
        args.len() == 3 || args.len() > 3 && args.last() != "--max-k"@,
        command_of(args) is Buckets,
        1 <= v <= usize::MAX,
    ensures
        command_of(args + seq!["--max-k"@, decimal(v)]) == (CommandView::Buckets {
            path: args[2],
            max_k: v,
        }),
{
    let more = seq!["--max-k"@, decimal(v)];
    let all = args + more;
    law_command_words(args);
    law_command_words(all);
    assert(all[1] == args[1] && all[2] == args[2]);
    lemma_option_prefix(args, more, 3, "--max-k"@, 1, 8);
    law_decimal_reads(v);
    lemma_plain(decimal(v));
    law_number_of(decimal(v), usize::MAX as nat, v);
    let so_far = option_from(args, 3, "--max-k"@, 1, 8)->number;
    lemma_option_last(args, "--max-k"@, decimal(v), 1, so_far);
}

proof fn lemma_plain(s: Seq<char>)
    requires
        is_figures(s),
    ensures
        denotes(s, numeral(s)),
{
    assert(is_figure(s[0]));
}

/// `buckets <path> --max-k <v>` asks for exactly `v` buckets at most.
pub proof fn law_buckets_line(program: Seq<char>, path: Seq<char>, v: nat)
    requires
        1 <= v <= usize::MAX,
    ensures
        command_of(seq![program, "buckets"@, path, "--max-k"@, decimal(v)]) == (
        CommandView::Buckets { path, max_k: v }),
{
    let args = seq![program, "buckets"@, path];
    law_default_max_k(args);
    law_max_k(args, v);
    assert(args + seq!["--max-k"@, decimal(v)] =~= seq![
        program,
        "buckets"@,
        path,
        "--max-k"@,
        decimal(v),
    ]);
}

proof fn lemma_no_flag(
    args: Seq<Seq<char>>,
    i: int,
    flag: Seq<char>,
    least: nat,
    current: nat,
)
    requires
        0 <= i,
        forall|j: int| i <= j < args.len() ==> #[trigger] args[j] != flag,
    ensures
        option_from(args, i, flag, least, current) == (OptionValue::Value { number: current }),
    decreases args.len() - i,
{
    if i < args.len() {
        assert(args[i] != flag);
        lemma_no_flag(args, i + 1, flag, least, current);
    }
}

/// Without `--max-k` up to eight buckets are tried, whatever else is given.
pub proof fn law_default_max_k(args: Seq<Seq<char>>)
    requires
        args.len() >= 3,
        args[1] == "buckets"@,
        forall|j: int| 3 <= j < args.len() ==> #[trigger] args[j] != "--max-k"@,
    ensures
        command_of(args) == (CommandView::Buckets { path: args[2], max_k: 8 }),
{
    law_command_words(args);
    lemma_no_flag(args, 3, "--max-k"@, 1, 8);
}

/// A `--max-k` whose value is no positive number that fits is refused with that value.
pub proof fn law_bad_max_k(args: Seq<Seq<char>>, t: Seq<char>)
    requires
        args.len() == 3 || args.len() > 3 && args.last() != "--max-k"@,
        command_of(args) is Buckets,
        forall|v: int| 1 <= v <= usize::MAX ==> !#[trigger] denotes(t, v),
    ensures
        command_of(args + seq!["--max-k"@, t]) == (CommandView::BadMaxK { text: t }),
{
    let more = seq!["--max-k"@, t];
    let all = args + more;
    law_command_words(args);
    law_command_words(all);
    assert(all[1] == args[1] && all[2] == args[2]);
    lemma_option_prefix(args, more, 3, "--max-k"@, 1, 8);
    match number_of(t, usize::MAX as nat) {
        Some(n) => {
            law_number_of(t, usize::MAX as nat, n);
            assert(denotes(t, n as int));
        },
        None => {},
    }
    let so_far = option_from(args, 3, "--max-k"@, 1, 8)->number;
    lemma_option_last(args, "--max-k"@, t, 1, so_far);
}

proof fn lemma_bad_stays(
    args: Seq<Seq<char>>,
    more: Seq<Seq<char>>,
    i: int,
    flag: Seq<char>,
    least: nat,
    current: nat,
)
    requires
        0 <= i,
        option_from(args, i, flag, least, current) is Bad,
    ensures
        option_from(args + more, i, flag, least, current) == option_from(
            args,
            i,
            flag,
            least,
            current,
        ),
    decreases args.len() - i,
{
    let all = args + more;
    if i < args.len() {
        assert(all[i] == args[i]);
        if args[i] == flag {
            if i + 1 < args.len() {
                assert(all[i + 1] == args[i + 1]);
                match number_of(args[i + 1], usize::MAX as nat) {
                    Some(number) => {
                        if number >= least {
                            lemma_bad_stays(args, more, i + 2, flag, least, number);
                        }
                    },
                    None => {},
                }
            } else {
                assert(option_from(args, i + 1, flag, least, current) is Value);
            }
        } else {
            lemma_bad_stays(args, more, i + 1, flag, least, current);
        }
    }
}

/// The first value that is refused counts, whatever follows.
pub proof fn law_first_refusal(args: Seq<Seq<char>>, more: Seq<Seq<char>>)
    requires
        command_of(args) is BadMaxK || command_of(args) is BadN,
    ensures
        command_of(args + more) == command_of(args),
{
    let all = args + more;
    law_command_words(args);
    law_command_words(all);
    assert(all[1] == args[1]);
    if command_of(args) is BadMaxK {
        lemma_bad_stays(args, more, 3, "--max-k"@, 1, 8);
    } else {
        lemma_bad_stays(args, more, 3, "--n"@, 0, 16);
    }
}

/// An argument at the end that is no value of an option changes nothing, not even where it
/// is a flag without a value.
pub proof fn law_ignored_argument(args: Seq<Seq<char>>, a: Seq<char>)
    requires
        args.len() >= 3,
        args.len() > 3 ==> args.last() != "--max-k"@ && args.last() != "--n"@,
    ensures
        command_of(args.push(a)) == command_of(args),
{
    let all = args.push(a);
    assert(all =~= args + seq![a]);
    assert(all[1] == args[1] && all[2] == args[2]);
    lemma_option_prefix(args, seq![a], 3, "--max-k"@, 1, 8);
    lemma_option_prefix(args, seq![a], 3, "--n"@, 0, 16);
    let n = args.len() as int;
    assert forall|flag: Seq<char>, least: nat, current: nat| #[trigger]
        option_from(all, n, flag, least, current) == (OptionValue::Value { number: current }) by {
        assert(option_from(all, n + 1, flag, least, current) == (OptionValue::Value {
            number: current,
        }));
    }
}

/// The last `--n` counts: with a number from one to 4096 behind it, it asks for a batch of
/// just that size, and with any other number that fits the size is out of range.
pub proof fn law_n(args: Seq<Seq<char>>, v: nat)
    requires
        args.len() == 3 || args.len() > 3 && args.last() != "--n"@,
        command_of(args) is Scale || command_of(args) is NOutOfRange,
        v <= usize::MAX,
    ensures
        1 <= v <= 4096 ==> command_of(args + seq!["--n"@, decimal(v)]) == (CommandView::Scale {
            path: args[2],
            n: v,
        }),
        !(1 <= v <= 4096) ==> command_of(args + seq!["--n"@, decimal(v)]) is NOutOfRange,
{
    let more = seq!["--n"@, decimal(v)];
    let all = args + more;
    law_command_words(args);
    law_command_words(all);
    assert(all[1] == args[1] && all[2] == args[2]);
    lemma_option_prefix(args, more, 3, "--n"@, 0, 16);
    law_decimal_reads(v);
    lemma_plain(decimal(v));
    law_number_of(decimal(v), usize::MAX as nat, v);
    let so_far = option_from(args, 3, "--n"@, 0, 16)->number;
    lemma_option_last(args, "--n"@, decimal(v), 0, so_far);
}

/// `scale <path> --n <v>` asks for batches of exactly `v` items at most.
pub proof fn law_scale_line(program: Seq<char>, path: Seq<char>, v: nat)
    requires
        1 <= v <= 4096,
    ensures
        command_of(seq![program, "scale"@, path, "--n"@, decimal(v)]) == (CommandView::Scale {
            path,
            n: v,
        }),
{
    let args = seq![program, "scale"@, path];
    law_default_n(args);
    law_n(args, v);
    assert(args + seq!["--n"@, decimal(v)] =~= seq![
        program,
        "scale"@,
        path,
        "--n"@,
        decimal(v),
    ]);
}

/// Without `--n` batches have up to sixteen items, whatever else is given.
pub proof fn law_default_n(args: Seq<Seq<char>>)
    requires
        args.len() >= 3,
        args[1] == "scale"@,
        forall|j: int| 3 <= j < args.len() ==> #[trigger] args[j] != "--n"@,
    ensures
        command_of(args) == (CommandView::Scale { path: args[2], n: 16 }),
{
    reveal_strlit("scale");
    reveal_strlit("demo");
    reveal_strlit("selftest");
    reveal_strlit("report");
    reveal_strlit("buckets");
    assert("scale"@.len() == 5);
    lemma_no_flag(args, 3, "--n"@, 0, 16);
}

/// An `--n` whose value is no number that fits is refused with that value.
pub proof fn law_bad_n(args: Seq<Seq<char>>, t: Seq<char>)
    requires
        args.len() == 3 || args.len() > 3 && args.last() != "--n"@,
        command_of(args) is Scale || command_of(args) is NOutOfRange,
        forall|v: int| 0 <= v <= usize::MAX ==> !#[trigger] denotes(t, v),
    ensures
        command_of(args + seq!["--n"@, t]) == (CommandView::BadN { text: t }),
{
    let more = seq!["--n"@, t];
    let all = args + more;
    law_command_words(args);
    law_command_words(all);
    assert(all[1] == args[1] && all[2] == args[2]);
    lemma_option_prefix(args, more, 3, "--n"@, 0, 16);
    match number_of(t, usize::MAX as nat) {
        Some(n) => {
            law_number_of(t, usize::MAX as nat, n);
            assert(denotes(t, n as int));
        },
        None => {},
    }
    let so_far = option_from(args, 3, "--n"@, 0, 16)->number;
    lemma_option_last(args, "--n"@, t, 0, so_far);
}

} // verus!
