use serde_llsd::numbers::{parse_i32, parse_int, real_text_valid};
use serde_llsd::text::{trim_chars, trimmed_lines_of, words_of};

fn cs(x: &str) -> Vec<char> {
    x.chars().collect()
}

#[test]
fn integer_parsing_follows_from_str_radix() {
    assert_eq!(parse_i32(&cs("42")), Some(42));
    assert_eq!(parse_i32(&cs("+7")), Some(7));
    assert_eq!(parse_i32(&cs("-2147483648")), Some(i32::MIN));
    assert_eq!(parse_i32(&cs("2147483648")), None);
    assert_eq!(parse_i32(&cs("")), None);
    assert_eq!(parse_i32(&cs("-")), None);
    assert_eq!(parse_i32(&cs("1 2")), None);
    assert_eq!(parse_int(&cs("7fffffff"), 16, true, i32::MIN as i128, i32::MAX as i128), Some(0x7fffffff));
    assert_eq!(parse_int(&cs("FF"), 16, true, i32::MIN as i128, i32::MAX as i128), Some(255));
    assert_eq!(parse_int(&cs("-0"), 10, false, 0, u64::MAX as i128), None);
    assert_eq!(parse_int(&cs("99999999999999999999999999"), 10, false, 0, u64::MAX as i128), None);
}

#[test]
fn real_syntax_follows_f64_parser() {
    for ok in ["1", "-1.5", "+.5", "5.", "1e10", "2.5E-3", "inf", "-Infinity", "NaN"] {
        assert!(real_text_valid(&cs(ok)), "{}", ok);
        assert!(ok.parse::<f64>().is_ok(), "{}", ok);
    }
    for bad in ["", ".", "e5", "1e", "1.2.3", "0x10", " 1", "infinit", "1e+"] {
        assert!(!real_text_valid(&cs(bad)), "{}", bad);
        assert!(bad.parse::<f64>().is_err(), "{}", bad);
    }
}

#[test]
fn trimming_and_splitting() {
    assert_eq!(trim_chars(&cs(" \t a b \r\n")), cs("a b"));
    assert_eq!(trim_chars(&cs("\u{3000}x\u{a0}")), cs("x"));
    assert_eq!(words_of(&cs("  a\tbb  c ")), vec![cs("a"), cs("bb"), cs("c")]);
    assert_eq!(words_of(&cs("   ")), Vec::<Vec<char>>::new());
    assert_eq!(trimmed_lines_of(&cs("a \r\n b\n\nc")), vec![cs("a"), cs("b"), cs(""), cs("c")]);
    assert_eq!(trimmed_lines_of(&cs("a\n")), vec![cs("a")]);
    assert_eq!(trimmed_lines_of(&cs("")), Vec::<Vec<char>>::new());
}
