use zkleak::binary_log::LOG_ONE;
use zkleak::csv::{
    parse_csv, sweep_samples, weight_fields, CsvError, HeaderNotice, Row, Sweep, WeightReading,
};
use zkleak::leakage::compute_leakage;
use zkleak::partition::build_partition;
use zkleak::weight::{exact_weights, ONE_BITS};

fn read(field: &str) -> WeightReading {
    match field.parse::<f64>() {
        Ok(x) => WeightReading::Number { bits: x.to_bits(), shown: format!("{}", x) },
        Err(_) => WeightReading::Malformed,
    }
}

fn parse(text: &str) -> (Option<HeaderNotice>, Result<Sweep, CsvError>) {
    let readings: Vec<WeightReading> = weight_fields(text).iter().map(|f| read(f)).collect();
    parse_csv(text, &readings)
}

fn sweep(text: &str) -> Sweep {
    parse(text).1.unwrap()
}

fn rows(text: &str) -> Vec<(String, u64, f64)> {
    sweep(text)
        .rows
        .iter()
        .map(|r| (r.label.clone(), r.cycles, f64::from_bits(r.bits)))
        .collect()
}

fn message(text: &str) -> String {
    parse(text).1.unwrap_err().message()
}

#[test]
fn header_and_rows() {
    let text = "secret,cycles\nL1,1\nL56,2\nL120,3\n";
    assert_eq!(
        rows(text),
        vec![
            ("L1".to_string(), 1, 1.0),
            ("L56".to_string(), 2, 1.0),
            ("L120".to_string(), 3, 1.0)
        ]
    );
    assert!(!sweep(text).weighted);
    assert!(parse(text).0.is_none());
}

#[test]
fn header_is_optional() {
    assert_eq!(rows("a,5\nb,6").len(), 2);
}

#[test]
fn comments_blank_lines_and_spaces_are_skipped() {
    let plain = "name,cycles\nx,5\ny,6\n";
    let spaced = "# a comment, with 3 commas,,\n\n   name , cycles \r\n\t\n  x ,\t5 \n # more\n y,6\n\n";
    assert_eq!(rows(plain), rows(spaced));
}

#[test]
fn weights_are_read_in_order() {
    let text = "a,1,2.5\nb,2\nc,3,\nd,4,0.125,extra\n";
    assert_eq!(weight_fields(text), vec!["2.5".to_string(), "0.125".to_string()]);
    let s = sweep(text);
    assert!(s.weighted);
    assert_eq!(
        rows(text),
        vec![
            ("a".to_string(), 1, 2.5),
            ("b".to_string(), 2, 1.0),
            ("c".to_string(), 3, 1.0),
            ("d".to_string(), 4, 0.125)
        ]
    );
}

#[test]
fn empty_weights_do_not_count_as_weights() {
    assert!(!sweep("a,1,\nb,2, \n").weighted);
}

#[test]
fn cycles_fill_sixty_four_bits() {
    assert_eq!(rows("a,18446744073709551615\nb,+7\nc,007")[0].1, u64::MAX);
    assert_eq!(rows("a,1\nb,+7\nc,007")[1].1, 7);
    assert_eq!(message("a,1\nb,18446744073709551616"), "line 2: cycles column \"18446744073709551616\" is not an integer");
}

#[test]
fn too_few_columns() {
    assert_eq!(message("a,1\nb\n"), "line 2: need at least 2 columns, got 1");
    assert!(matches!(parse("a").1, Err(CsvError::TooFewColumns { line: 1, columns: 1 })));
}

#[test]
fn cycles_that_are_no_integer() {
    assert_eq!(message("a,1\nb,x\"y\n"), "line 2: cycles column \"x\\\"y\" is not an integer");
    assert_eq!(message("h,cycles\n\nh,cycles\n"), "line 3: cycles column \"cycles\" is not an integer");
    assert_eq!(message("a,1\nb,-3"), "line 2: cycles column \"-3\" is not an integer");
    assert_eq!(message("a,1\nb,+"), "line 2: cycles column \"+\" is not an integer");
}

#[test]
fn weights_that_are_no_number() {
    assert_eq!(message("a,1,2\nb,2,heavy\n"), "line 2: weight \"heavy\" is not a number");
}

#[test]
fn weights_that_are_not_positive() {
    assert_eq!(message("a,1,0\n"), "line 1: weight must be positive, got 0");
    assert_eq!(message("a,1,-2.5\n"), "line 1: weight must be positive, got -2.5");
    assert_eq!(message("a,1,-0.0\n"), "line 1: weight must be positive, got -0");
    assert_eq!(message("a,1,NaN\n"), "line 1: weight must be positive, got NaN");
}

#[test]
fn text_without_measurements() {
    assert_eq!(message(""), "no data rows");
    assert_eq!(message("# only\n\nsecret,cycles\n"), "no data rows");
}

#[test]
fn errors_come_in_the_order_of_the_lines() {
    assert_eq!(message("a,1,x\nb\n"), "line 1: weight \"x\" is not a number");
    assert_eq!(message("a,1,2\nb\nc,3,x\n"), "line 2: need at least 2 columns, got 1");
}

#[test]
fn header_that_looks_like_a_number_is_noticed() {
    let (notice, result) = parse("# c\na,1.5\nb,2\n");
    let notice = notice.unwrap();
    assert_eq!((notice.line, notice.field.as_str()), (2, "1.5"));
    assert_eq!(
        notice.message(),
        "skipping line 2 as a header, but \"1.5\" looks like it was meant to be a number -- check that no data row was dropped"
    );
    assert_eq!(result.unwrap().rows.len(), 1);
    assert!(parse("a,0x1f\nb,2\n").0.is_some());
    assert!(parse("a,-\nb,2\n").0.is_some());
    assert!(parse("a,1_000\nb\n").0.is_some());
    assert!(parse("a,\nb,2\n").0.is_none());
}

#[test]
fn messages_take_the_quoted_field() {
    let e = CsvError::CyclesNotInteger { line: 12, field: "x".to_string() };
    assert_eq!(e.message_with("<x>"), "line 12: cycles column <x> is not an integer");
    let w = CsvError::WeightNotNumber { line: 3, field: "x".to_string() };
    assert_eq!(w.message_with("<x>"), "line 3: weight <x> is not a number");
    let n = HeaderNotice { line: 4, field: "x".to_string() };
    assert!(n.message_with("<x>").starts_with("skipping line 4 as a header, but <x> looks"));
}

#[test]
fn missing_readings_count_as_malformed() {
    let (_, result) = parse_csv("a,1,2\n", &Vec::new());
    assert_eq!(result.unwrap_err().message(), "line 1: weight \"2\" is not a number");
}

#[test]
fn labels_keep_other_characters() {
    assert_eq!(rows("\u{fffd}\u{e9} x,1")[0].0, "\u{fffd}\u{e9} x");
    assert_eq!(rows("\u{2003}x\u{a0},1")[0].0, "x");
}

#[test]
fn default_weights_are_one() {
    let samples = sweep_samples(&sweep("a,1\nb,1\nc,2").rows).unwrap();
    for s in samples.iter() {
        assert_eq!(s.weight.to_u128(), Some(1));
    }
    assert_eq!(1f64.to_bits(), ONE_BITS);
}

#[test]
fn samples_have_exact_weights() {
    let samples = sweep_samples(&sweep("a,9,0.5\nb,8,3\nc,7,0.25").rows).unwrap();
    let got: Vec<(u64, u128)> =
        samples.iter().map(|s| (s.cycles, s.weight.to_u128().unwrap())).collect();
    assert_eq!(got, vec![(9, 2), (8, 12), (7, 1)]);
}

#[test]
fn infinite_weights_have_no_samples() {
    let s = sweep("a,1,inf\nb,2,1");
    assert_eq!(s.rows.len(), 2);
    assert!(sweep_samples(&s.rows).is_none());
}

#[test]
fn no_rows_have_no_samples() {
    let none: Vec<Row> = Vec::new();
    assert_eq!(sweep_samples(&none).unwrap().len(), 0);
}

#[test]
fn exact_weights_of_extreme_numbers() {
    let bits: Vec<u64> = vec![f64::MIN_POSITIVE.to_bits(), 1, f64::MAX.to_bits()];
    let w = exact_weights(&bits).unwrap();
    assert_eq!(w[0].to_u128(), Some(1 << 52));
    assert_eq!(w[1].to_u128(), Some(1));
    assert_eq!(w[2].top_bit(), 2097);
    assert!(exact_weights(&vec![0]).is_none());
    assert!(exact_weights(&vec![f64::INFINITY.to_bits()]).is_none());
    assert!(exact_weights(&vec![(-1f64).to_bits()]).is_none());
    assert_eq!(exact_weights(&Vec::new()).unwrap().len(), 0);
}

#[test]
fn exact_weights_keep_ratios() {
    let w = exact_weights(&vec![6f64.to_bits(), 1.5f64.to_bits(), 48f64.to_bits()]).unwrap();
    let got: Vec<u128> = w.iter().map(|x| x.to_u128().unwrap()).collect();
    assert_eq!(got, vec![12, 3, 96]);
}

#[test]
fn whole_path_from_text_to_bits() {
    let s = sweep("secret,cycles,weight\na,1,8\nb,2,1\nc,3,1\n");
    let samples = sweep_samples(&s.rows).unwrap();
    let l = compute_leakage(&build_partition(&samples));
    let got = l.min_entropy_bits as f64 / LOG_ONE as f64;
    assert!((got - 1.25f64.log2()).abs() < 1e-12);
}

#[test]
fn header_in_front_changes_nothing() {
    let text = "# c\n\na,1,2.5\nb,2\n";
    let with = format!("secret,cycles\n{}", text);
    assert_eq!(rows(text), rows(&with));
    assert_eq!(sweep(text).weighted, sweep(&with).weighted);
    assert_eq!(weight_fields(text), weight_fields(&with));
    assert!(parse(&with).0.is_none());
}

#[test]
fn comments_and_spaces_anywhere_change_nothing() {
    let text = "a,1,2.5\nb,2\nc,3,4";
    let loose = "\n\n#x\n a , 1\t,2.5 \n#y\n#z,9\nb,  2\n\n\u{3000}c,3,\u{a0}4\n\n# end";
    assert_eq!(rows(text), rows(loose));
    assert_eq!(weight_fields(text), weight_fields(loose));
}

#[test]
fn rows_written_out_read_back() {
    let first = sweep("x,y\n a b ,5,0.1\n,7\nc#,9,1e-300\n");
    let mut text = String::new();
    for r in first.rows.iter() {
        text.push_str(&format!("{},{},{}\n", r.label, r.cycles, f64::from_bits(r.bits)));
    }
    let second = sweep(&text);
    assert!(second.weighted);
    let flat = |s: &Sweep| -> Vec<(String, u64, u64)> {
        s.rows.iter().map(|r| (r.label.clone(), r.cycles, r.bits)).collect()
    };
    assert_eq!(flat(&first), flat(&second));
}
