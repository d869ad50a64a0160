use zkleak::options::{parse_args, Command};

fn ask(args: &[&str]) -> Command {
    let mut all = vec!["zkleak".to_string()];
    for a in args {
        all.push(a.to_string());
    }
    parse_args(&all)
}

#[test]
fn plain_commands() {
    assert!(matches!(ask(&[]), Command::Missing));
    assert!(matches!(parse_args(&Vec::new()), Command::Missing));
    assert!(matches!(ask(&["demo"]), Command::Demo));
    assert!(matches!(ask(&["selftest", "x"]), Command::Selftest));
    assert!(matches!(ask(&["-h"]), Command::Help));
    assert!(matches!(ask(&["--help"]), Command::Help));
    assert!(matches!(ask(&["help"]), Command::Help));
}

#[test]
fn unknown_command_is_named() {
    match ask(&["Report", "x.csv"]) {
        Command::Unknown { text } => assert_eq!(text, "Report"),
        other => panic!("{:?}", other),
    }
}

#[test]
fn report_needs_a_path() {
    assert!(matches!(ask(&["report"]), Command::ReportWithoutPath));
    match ask(&["report", "x.csv", "--max-k", "oops"]) {
        Command::Report { path } => assert_eq!(path, "x.csv"),
        other => panic!("{:?}", other),
    }
}

#[test]
fn buckets_options() {
    assert!(matches!(ask(&["buckets"]), Command::BucketsWithoutPath));
    match ask(&["buckets", "x.csv"]) {
        Command::Buckets { path, max_k } => assert_eq!((path.as_str(), max_k), ("x.csv", 8)),
        other => panic!("{:?}", other),
    }
    match ask(&["buckets", "x.csv", "junk", "--max-k", "3", "--max-k", "5"]) {
        Command::Buckets { path: _, max_k } => assert_eq!(max_k, 5),
        other => panic!("{:?}", other),
    }
    match ask(&["buckets", "x.csv", "--max-k"]) {
        Command::Buckets { path: _, max_k } => assert_eq!(max_k, 8),
        other => panic!("{:?}", other),
    }
}

#[test]
fn bad_bucket_counts_are_refused() {
    for bad in ["0", "x", "", "-1", "99999999999999999999999"] {
        match ask(&["buckets", "x.csv", "--max-k", bad]) {
            Command::BadMaxK { text } => assert_eq!(text, bad),
            other => panic!("{:?}", other),
        }
    }
}

#[test]
fn scale_options() {
    assert!(matches!(ask(&["scale"]), Command::ScaleWithoutPath));
    match ask(&["scale", "x.csv"]) {
        Command::Scale { path, n } => assert_eq!((path.as_str(), n), ("x.csv", 16)),
        other => panic!("{:?}", other),
    }
    match ask(&["scale", "x.csv", "--n", "4096"]) {
        Command::Scale { path: _, n } => assert_eq!(n, 4096),
        other => panic!("{:?}", other),
    }
}

#[test]
fn bad_batch_sizes_are_refused() {
    match ask(&["scale", "x.csv", "--n", "ten"]) {
        Command::BadN { text } => assert_eq!(text, "ten"),
        other => panic!("{:?}", other),
    }
    assert!(matches!(ask(&["scale", "x.csv", "--n", "0"]), Command::NOutOfRange));
    assert!(matches!(ask(&["scale", "x.csv", "--n", "4097"]), Command::NOutOfRange));
    match ask(&["scale", "x.csv", "--n", "0", "--n", "7"]) {
        Command::Scale { path: _, n } => assert_eq!(n, 7),
        other => panic!("{:?}", other),
    }
}
