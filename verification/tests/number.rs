use crn::integer::{read_count, read_i32, write_i32, write_natural};
use crn::lex::{skip_digits, skip_spaces, skip_word};
use crn::number::{chars_of, skip_number};
use crn::{Abundance, Number};

fn chars(text: &str) -> Vec<char> {
    text.chars().collect()
}

#[test]
fn numbers_are_recognised() {
    for text in [
        "0", "1", "42", "007", "+1", "-1", "1.", "1.5", ".5", "-.5", "+.5e3", "1e5", "1E5", "1e+5",
        "1e-5", "1.e5", "1.5e10", "0.00001", "1000000000", "12345678901234567890.5",
    ] {
        let n = Number::new(text).unwrap();
        assert_eq!(n.as_str(), text);
    }
}

#[test]
fn other_texts_are_no_numbers() {
    for text in [
        "", " ", "+", "-", ".", "e5", "-e5", "1e", "1e+", "1E-", "1.5.2", "1 ", " 1", "1x", "x",
        "--1", "+-1", "1e5.5", "1,5", "inf", "nan", "infinity", "0x10", "1_000",
    ] {
        assert!(Number::new(text).is_none(), "{:?} was taken as a number", text);
    }
}

#[test]
fn a_number_ends_where_the_literal_ends() {
    assert_eq!(skip_number("12;", 0), Some(2));
    assert_eq!(skip_number("x=12.5e-3;", 2), Some(9));
    assert_eq!(skip_number("\u{e9}=12.5e-3\u{e9}", 2), Some(9));
    assert_eq!(skip_number("1.e", 0), None);
    assert_eq!(skip_number("1.x", 0), Some(2));
    assert_eq!(skip_number("1..2", 0), Some(2));
    assert_eq!(skip_number("-.5-", 0), Some(3));
    assert_eq!(skip_number("1+2", 0), Some(1));
    assert_eq!(skip_number("1e5e5", 0), Some(3));
    assert_eq!(skip_number("1e+-5", 0), None);
    assert_eq!(skip_number("12", 2), None);
    assert_eq!(skip_number("a12", 0), None);
    assert_eq!(skip_number("+", 0), None);
    assert_eq!(skip_number("", 0), None);
}

#[test]
fn runs_are_skipped() {
    let text = chars(" \t\r\n12ab3 +");
    assert_eq!(skip_spaces(&text, 0), 4);
    assert_eq!(skip_spaces(&text, 4), 4);
    assert_eq!(skip_digits(&text, 4), 6);
    assert_eq!(skip_digits(&text, 6), 6);
    assert_eq!(skip_word(&text, 4), None);
    assert_eq!(skip_word(&text, 6), Some(9));
    assert_eq!(skip_word(&text, 9), None);
    assert_eq!(skip_spaces(&text, 11), 11);
    assert_eq!(skip_word(&text, 11), None);
    assert_eq!(skip_word(&chars("Zz09_"), 0), Some(4));
    assert_eq!(skip_word(&chars("\u{e9}t\u{e9}"), 0), None);
    assert_eq!(skip_word(&chars("t\u{e9}"), 0), Some(1));
}

#[test]
fn characters_are_copied() {
    assert_eq!(chars_of("a\u{e9}\u{1f600}b"), vec!['a', '\u{e9}', '\u{1f600}', 'b']);
    assert_eq!(chars_of(""), Vec::<char>::new());
}

#[test]
fn integers_are_read() {
    assert_eq!(read_i32(&chars("0")), Some(0));
    assert_eq!(read_i32(&chars("-0")), Some(0));
    assert_eq!(read_i32(&chars("+17")), Some(17));
    assert_eq!(read_i32(&chars("-17")), Some(-17));
    assert_eq!(read_i32(&chars("0000000000000000000017")), Some(17));
    assert_eq!(read_i32(&chars("2147483647")), Some(2147483647));
    assert_eq!(read_i32(&chars("2147483648")), None);
    assert_eq!(read_i32(&chars("-2147483648")), Some(-2147483648));
    assert_eq!(read_i32(&chars("-2147483649")), None);
    assert_eq!(read_i32(&chars("99999999999999999999999999")), None);
    assert_eq!(read_i32(&chars("")), None);
    assert_eq!(read_i32(&chars("+")), None);
    assert_eq!(read_i32(&chars("-")), None);
    assert_eq!(read_i32(&chars("1.0")), None);
    assert_eq!(read_i32(&chars("1e3")), None);
    assert_eq!(read_i32(&chars(" 1")), None);
    assert_eq!(read_i32(&chars("1 ")), None);
}

#[test]
fn integers_are_read_as_the_standard_library_reads_them() {
    for text in ["0", "-0", "+5", "-5", "12", "2147483647", "2147483648", "-2147483648", "", "+"] {
        assert_eq!(read_i32(&chars(text)), text.parse::<i32>().ok(), "{:?}", text);
    }
}

#[test]
fn coefficients_are_read() {
    let text = chars("x12y2147483647z2147483648");
    assert_eq!(read_count(&text, 1, 1), Some(1));
    assert_eq!(read_count(&text, 1, 3), Some(12));
    assert_eq!(read_count(&text, 1, 2), Some(1));
    assert_eq!(read_count(&text, 2, 3), Some(2));
    assert_eq!(read_count(&text, 4, 14), Some(2147483647));
    assert_eq!(read_count(&text, 15, 25), None);
    assert_eq!(read_count(&chars("0"), 0, 1), Some(0));
}

#[test]
fn integers_are_written() {
    assert_eq!(write_i32(0), "0");
    assert_eq!(write_i32(7), "7");
    assert_eq!(write_i32(10), "10");
    assert_eq!(write_i32(-1), "-1");
    assert_eq!(write_i32(120034), "120034");
    assert_eq!(write_i32(i32::MAX), "2147483647");
    assert_eq!(write_i32(i32::MIN), "-2147483648");
    assert_eq!(write_natural(0), "0");
    assert_eq!(write_natural(u64::MAX), "18446744073709551615");
}

#[test]
fn written_integers_are_read_back() {
    for v in [0, 1, -1, 9, 10, 99, 100, -100, 123456789, i32::MAX, i32::MIN, i32::MIN + 1] {
        assert_eq!(read_i32(&chars(&write_i32(v))), Some(v));
        let n = Number::from_i32(v);
        assert_eq!(n.to_i32(), Some(v));
        assert_eq!(n.as_str(), v.to_string());
    }
}

#[test]
fn a_number_is_an_integer_where_it_is_written_as_one() {
    assert_eq!(Number::new("12").unwrap().to_i32(), Some(12));
    assert_eq!(Number::new("-12").unwrap().to_i32(), Some(-12));
    assert_eq!(Number::new("12.0").unwrap().to_i32(), None);
    assert_eq!(Number::new("1e2").unwrap().to_i32(), None);
    assert_eq!(Number::new("12.").unwrap().to_i32(), None);
    assert_eq!(Number::new("4000000000").unwrap().to_i32(), None);
}

#[test]
fn fixed_numbers() {
    assert_eq!(Number::one().as_str(), "1");
    assert_eq!(Number::zero().as_str(), "0");
    assert_eq!(Number::one(), Number::new("1").unwrap());
    assert_eq!(Number::one().clone(), Number::one());
}

#[test]
fn both_abundances_read_and_write_literals() {
    assert_eq!(<i32 as Abundance>::from_literal("-12"), Some(-12));
    assert_eq!(<i32 as Abundance>::from_literal("1.5"), None);
    assert_eq!(<i32 as Abundance>::zero(), 0);
    assert_eq!((-12i32).to_literal(), "-12");
    assert_eq!(12i32.duplicate(), 12);
    let n = <Number as Abundance>::from_literal("1.5").unwrap();
    assert_eq!(n.as_str(), "1.5");
    assert_eq!(n.to_literal(), "1.5");
    assert_eq!(n.duplicate().as_str(), "1.5");
    assert_eq!(<Number as Abundance>::zero().as_str(), "0");
    assert!(<Number as Abundance>::from_literal("1.5x").is_none());
}
