//! What the command line asks for.

use crate::csv::texts_of;
use crate::text::{number_of, read_number, same_text, to_chars};
use vstd::prelude::*;

verus! {

/// How many buckets are tried unless the command line says otherwise.
pub const DEFAULT_MAX_K: usize = 8;

/// How many items a batch has unless the command line says otherwise.
pub const DEFAULT_N: usize = 16;

/// The largest batch.
pub const LARGEST_N: usize = 4096;

/// A request, or why there is none.
#[derive(Debug)]
pub enum Command {
    /// No command was given.
    Missing,
    Demo,
    Selftest,
    Help,
    Report { path: String },
    Buckets { path: String, max_k: usize },
    Scale { path: String, n: usize },
    /// `report` without a path.
    ReportWithoutPath,
    /// `buckets` without a path.
    BucketsWithoutPath,
    /// `scale` without a path.
    ScaleWithoutPath,
    /// A number of buckets that is not a positive integer.
    BadMaxK { text: String },
    /// A batch size that is not an integer.
    BadN { text: String },
    /// A batch size out of range.
    NOutOfRange,
    /// No such command.
    Unknown { text: String },
}

/// The mathematical content of a `Command`.
#[verifier::ext_equal]
pub enum CommandView {
    Missing,
    Demo,
    Selftest,
    Help,
    Report { path: Seq<char> },
    Buckets { path: Seq<char>, max_k: nat },
    Scale { path: Seq<char>, n: nat },
    ReportWithoutPath,
    BucketsWithoutPath,
    ScaleWithoutPath,
    BadMaxK { text: Seq<char> },
    BadN { text: Seq<char> },
    NOutOfRange,
    Unknown { text: Seq<char> },
}

impl View for Command {
    type V = CommandView;

    open spec fn view(&self) -> CommandView {
        match *self {
            Command::Missing => CommandView::Missing,
            Command::Demo => CommandView::Demo,
            Command::Selftest => CommandView::Selftest,
            Command::Help => CommandView::Help,
            Command::Report { path } => CommandView::Report { path: path@ },
            Command::Buckets { path, max_k } => CommandView::Buckets {
                path: path@,
                max_k: max_k as nat,
            },
            Command::Scale { path, n } => CommandView::Scale { path: path@, n: n as nat },
            Command::ReportWithoutPath => CommandView::ReportWithoutPath,
            Command::BucketsWithoutPath => CommandView::BucketsWithoutPath,
            Command::ScaleWithoutPath => CommandView::ScaleWithoutPath,
            Command::BadMaxK { text } => CommandView::BadMaxK { text: text@ },
            Command::BadN { text } => CommandView::BadN { text: text@ },
            Command::NOutOfRange => CommandView::NOutOfRange,
            Command::Unknown { text } => CommandView::Unknown { text: text@ },
        }
    }
}

/// What an option ends up as.
pub enum OptionValue {
    Value { number: nat },
    Bad { text: Seq<char> },
}

/// The value of an option, reading the arguments from place `i` on.
///
/// An option is a flag followed by a value; the last one counts, and the first
/// that is not an integer of at least `least` is an error. Other arguments, and a
/// flag at the very end, are ignored.
pub open spec fn option_from(
    args: Seq<Seq<char>>,
    i: int,
    flag: Seq<char>,
    least: nat,
    current: nat,
) -> OptionValue
    decreases args.len() - i,
{
    if i < 0 || i >= args.len() {
        OptionValue::Value { number: current }
    } else if args[i] == flag && i + 1 < args.len() {
        match number_of(args[i + 1], usize::MAX as nat) {
            Some(number) => if number >= least {
                option_from(args, i + 2, flag, least, number)
            } else {
                OptionValue::Bad { text: args[i + 1] }
            },
            None => OptionValue::Bad { text: args[i + 1] },
        }
    } else {
        option_from(args, i + 1, flag, least, current)
    }
}

/// What a command line asks for. The first argument is the name of the program.
pub open spec fn command_of(args: Seq<Seq<char>>) -> CommandView {
    if args.len() < 2 {
        CommandView::Missing
    } else if args[1] == "demo"@ {
        CommandView::Demo
    } else if args[1] == "selftest"@ {
        CommandView::Selftest
    } else if args[1] == "report"@ {
        if args.len() < 3 {
            CommandView::ReportWithoutPath
        } else {
            CommandView::Report { path: args[2] }
        }
    } else if args[1] == "buckets"@ {
        if args.len() < 3 {
            CommandView::BucketsWithoutPath
        } else {
            match option_from(args, 3, "--max-k"@, 1, DEFAULT_MAX_K as nat) {
                OptionValue::Value { number } => CommandView::Buckets {
                    path: args[2],
                    max_k: number,
                },
                OptionValue::Bad { text } => CommandView::BadMaxK { text },
            }
        }
    } else if args[1] == "scale"@ {
        if args.len() < 3 {
            CommandView::ScaleWithoutPath
        } else {
            match option_from(args, 3, "--n"@, 0, DEFAULT_N as nat) {
                OptionValue::Value { number } => if number == 0 || number > LARGEST_N {
                    CommandView::NOutOfRange
                } else {
                    CommandView::Scale { path: args[2], n: number }
                },
                OptionValue::Bad { text } => CommandView::BadN { text },
            }
        }
    } else if args[1] == "-h"@ || args[1] == "--help"@ || args[1] == "help"@ {
        CommandView::Help
    } else {
        CommandView::Unknown { text: args[1] }
    }
}

/// The value of an option, or the text that is wrong.
fn read_option(args: &Vec<String>, flag: &str, least: usize, default: usize) -> (r: Result<
    usize,
    String,
>)
    requires
        args@.len() >= 3,
    ensures
        match r {
            Ok(v) => option_from(texts_of(args@), 3, flag@, least as nat, default as nat)
                == (OptionValue::Value { number: v as nat }),
            Err(t) => option_from(texts_of(args@), 3, flag@, least as nat, default as nat)
                == (OptionValue::Bad { text: t@ }),
        },
{
    let ghost all = texts_of(args@);
    let mut current: usize = default;
    let mut i: usize = 3;
    while i < args.len()
        invariant
            all == texts_of(args@),
            3 <= i,
            option_from(all, 3, flag@, least as nat, default as nat) == option_from(
                all,
                i as int,
                flag@,
                least as nat,
                current as nat,
            ),
        decreases args.len() - i,
    {
        assert(all[i as int] == args@[i as int]@);
        if same_text(args[i].as_str(), flag) && i + 1 < args.len() {
            assert(all[i + 1] == args@[i + 1]@);
            let text: Vec<char> = to_chars(args[i + 1].as_str());
            match read_number(&text, usize::MAX as u64) {
                Some(v) => {
                    if v >= least as u64 {
                        current = v as usize;
                        i = i + 2;
                    } else {
                        return Err(args[i + 1].clone());
                    }
                },
                None => {
                    return Err(args[i + 1].clone());
                },
            }
        } else {
            i = i + 1;
        }
    }
    Ok(current)
}

/// Reads a command line.
pub fn parse_args(args: &Vec<String>) -> (r: Command)
    ensures
        r@ == command_of(texts_of(args@)),
        ({
            let c = command_of(texts_of(args@));
            match r {
                Command::Missing => c is Missing,
                Command::Demo => c is Demo,
                Command::Selftest => c is Selftest,
                Command::Help => c is Help,
                Command::Report { path } => c == (CommandView::Report { path: path@ }),
                Command::Buckets { path, max_k } => c == (CommandView::Buckets {
                    path: path@,
                    max_k: max_k as nat,
                }),
                Command::Scale { path, n } => c == (CommandView::Scale {
                    path: path@,
                    n: n as nat,
                }),
                Command::ReportWithoutPath => c is ReportWithoutPath,
                Command::BucketsWithoutPath => c is BucketsWithoutPath,
                Command::ScaleWithoutPath => c is ScaleWithoutPath,
                Command::BadMaxK { text } => c == (CommandView::BadMaxK { text: text@ }),
                Command::BadN { text } => c == (CommandView::BadN { text: text@ }),
                Command::NOutOfRange => c is NOutOfRange,
                Command::Unknown { text } => c == (CommandView::Unknown { text: text@ }),
            }
        }),
{
    let ghost all = texts_of(args@);
    if args.len() < 2 {
        return Command::Missing;
    }
    assert(all[1] == args@[1]@);
    let word: &str = args[1].as_str();
    if same_text(word, "demo") {
        return Command::Demo;
    }
    if same_text(word, "selftest") {
        return Command::Selftest;
    }
    if same_text(word, "report") {
        if args.len() < 3 {
            return Command::ReportWithoutPath;
        }
        assert(all[2] == args@[2]@);
        return Command::Report { path: args[2].clone() };
    }
    if same_text(word, "buckets") {
        if args.len() < 3 {
            return Command::BucketsWithoutPath;
        }
        assert(all[2] == args@[2]@);
        return match read_option(args, "--max-k", 1, DEFAULT_MAX_K) {
            Ok(max_k) => Command::Buckets { path: args[2].clone(), max_k },
            Err(text) => Command::BadMaxK { text },
        };
    }
    if same_text(word, "scale") {
        if args.len() < 3 {
            return Command::ScaleWithoutPath;
        }
        assert(all[2] == args@[2]@);
        return match read_option(args, "--n", 0, DEFAULT_N) {
            Ok(n) => if n == 0 || n > LARGEST_N {
                Command::NOutOfRange
            } else {
                Command::Scale { path: args[2].clone(), n }
            },
            Err(text) => Command::BadN { text },
        };
    }
    if same_text(word, "-h") || same_text(word, "--help") || same_text(word, "help") {
        return Command::Help;
    }
    Command::Unknown { text: args[1].clone() }
}

} // verus!
