use zkleak::binary_log::{log2_fixed, LOG_ONE};
use zkleak::natural::Nat;
use zkleak::text::{
    read_number, right, left, same_text, split, to_chars, trim, write_count, write_decimal, write_fixed,
};

fn num(x: u128) -> Nat {
    Nat::from_u128(x)
}

fn text(v: Vec<char>) -> String {
    v.into_iter().collect()
}

#[test]
fn small_numbers() {
    assert!(Nat::zero().is_zero());
    assert_eq!(num(5).plus(&num(7)).to_u128(), Some(12));
    assert_eq!(num(12).minus(&num(7)).to_u128(), Some(5));
    assert_eq!(num(u64::MAX as u128).times(&num(u64::MAX as u128)).to_u128(), Some(u64::MAX as u128 * u64::MAX as u128));
    assert!(num(3).less(&num(4)));
    assert!(!num(4).less(&num(4)));
    assert!(num(4).same(&num(4)));
    assert_eq!(num(3).larger(&num(9)).to_u128(), Some(9));
}

#[test]
fn carries_and_borrows() {
    let a = num(u128::MAX);
    let b = a.plus(&num(1));
    assert_eq!(b.to_u128(), None);
    assert_eq!(b.top_bit(), 128);
    assert_eq!(b.minus(&num(1)).to_u128(), Some(u128::MAX));
}

#[test]
fn division_by_long_numbers() {
    let d = num(0xffff_ffff_0000_0001_8000_0000);
    let q = num(0x1234_5678_9abc_def0);
    let r = num(0x7fff_ffff_ffff);
    let n = d.times(&q).plus(&r);
    let (got_q, got_r) = n.div_rem(&d);
    assert!(got_q.same(&q));
    assert!(got_r.same(&r));
}

#[test]
fn shifts() {
    let (q, exact) = num(0b1011_0000).shift_right(4);
    assert_eq!((q.to_u128(), exact), (Some(0b1011), true));
    let (q, exact) = num(0b1011_0001).shift_right(4);
    assert_eq!((q.to_u128(), exact), (Some(0b1011), false));
    assert_eq!(num(3).shift_left(100).to_u128(), Some(3 << 100));
    assert_eq!(num(1).shift_left(1000).top_bit(), 1000);
}

#[test]
fn logarithms_of_powers_of_two_are_exact() {
    for e in [0u128, 1, 2, 10, 63, 64, 127, 500] {
        assert_eq!(log2_fixed(&num(1).shift_left(e)), e * LOG_ONE as u128);
    }
}

#[test]
fn logarithms_are_rounded_down() {
    for x in [3u64, 5, 6, 7, 10, 17, 1000, 123_456_789] {
        let got = log2_fixed(&Nat::from_u64(x)) as f64 / LOG_ONE as f64;
        let want = (x as f64).log2();
        assert!(want - got > -1e-13 && want - got < 1e-13);
    }
    assert_eq!(log2_fixed(&num(3)), 446_127_282_977_750);
    assert_eq!(log2_fixed(&num(3 << 20)), log2_fixed(&num(3)) + 20 * LOG_ONE as u128);
}

#[test]
fn decimals() {
    assert_eq!(text(write_decimal(&Nat::zero())), "0");
    assert_eq!(text(write_decimal(&num(u128::MAX))), u128::MAX.to_string());
    assert_eq!(text(write_count(1024)), "1024");
}

#[test]
fn quotients_are_rounded_to_even() {
    assert_eq!(text(write_fixed(&num(1), &num(2), 0)), "0");
    assert_eq!(text(write_fixed(&num(3), &num(2), 0)), "2");
    assert_eq!(text(write_fixed(&num(1), &num(8), 2)), "0.12");
    assert_eq!(text(write_fixed(&num(3), &num(8), 2)), "0.38");
    assert_eq!(text(write_fixed(&num(2), &num(3), 4)), "0.6667");
    assert_eq!(text(write_fixed(&num(99999), &num(100000), 4)), "1.0000");
    assert_eq!(text(write_fixed(&num(7), &num(100), 4)), "0.0700");
}

#[test]
fn fields_are_padded_with_spaces() {
    assert_eq!(text(right(to_chars("ab"), 5)), "   ab");
    assert_eq!(text(left(to_chars("ab"), 5)), "ab   ");
    assert_eq!(text(right(to_chars("abcdef"), 5)), "abcdef");
    assert_eq!(text(left(to_chars("abcdef"), 5)), "abcdef");
}

#[test]
fn text_is_trimmed_and_split() {
    assert_eq!(text(trim(&to_chars(" \t\u{3000}a b\r\n"))), "a b");
    assert_eq!(text(trim(&to_chars(" \t "))), "");
    let parts: Vec<String> = split(&to_chars("a,,b,"), ',').into_iter().map(text).collect();
    assert_eq!(parts, vec!["a", "", "b", ""]);
    assert!(same_text("abc", "abc"));
    assert!(!same_text("abc", "abd"));
    assert!(!same_text("abc", "ab"));
}

#[test]
fn white_space_is_that_of_char() {
    for code in 0u32..0x1_1000 {
        if let Some(c) = char::from_u32(code) {
            let v = vec![c];
            assert_eq!(trim(&v).is_empty(), c.is_whitespace(), "{:x}", code);
        }
    }
}

#[test]
fn numbers_are_read_as_parse_reads_them() {
    for s in ["0", "12", "+5", "007", "", "+", "-", "-1", "1.0", " 1", "1_0", "++1", "18446744073709551615", "18446744073709551616"] {
        assert_eq!(read_number(&to_chars(s), u64::MAX), s.parse::<u64>().ok(), "{}", s);
    }
    assert_eq!(read_number(&to_chars("256"), 255), None);
    assert_eq!(read_number(&to_chars("255"), 255), Some(255));
}
