use exprlang::literal::{i128_from_str_radix, is_float_literal};
use exprlang::str_ext::{Substr, Textwise};

#[test]
fn substr_takes_byte_ranges() {
    let s: &str = "héllo";
    assert_eq!(s.substr(0, 1), Some("h"));
    assert_eq!(s.substr(1, 2), Some("é"));
    assert_eq!(s.substr(3, 3), Some("llo"));
    assert_eq!(s.substr(0, 0), None);
    assert_eq!(s.substr(4, 3), None);
    assert_eq!(s.substr(0, 6), Some("héllo"));
}

#[test]
fn pos_gives_line_and_column() {
    let s: &str = "ab\ncd\n\nef";
    assert_eq!(s.pos(0), (1, 0));
    assert_eq!(s.pos(1), (1, 1));
    assert_eq!(s.pos(3), (2, 0));
    assert_eq!(s.pos(4), (2, 1));
    assert_eq!(s.pos(6), (3, 0));
    assert_eq!(s.pos(7), (4, 0));
    // at or past the character count
    assert_eq!(s.pos(9), (0, 0));
    assert_eq!(s.pos(100), (0, 0));
}

#[test]
fn line_gives_the_numbered_line() {
    let s: &str = "one\r\ntwo\n\nfour";
    assert_eq!(s.line(1), "one");
    assert_eq!(s.line(2), "two");
    assert_eq!(s.line(3), "");
    assert_eq!(s.line(4), "four");
}

#[test]
fn integers_in_each_radix() {
    assert_eq!(i128_from_str_radix("42", 10), Some(42));
    assert_eq!(i128_from_str_radix("-42", 10), Some(-42));
    assert_eq!(i128_from_str_radix("+7", 10), Some(7));
    assert_eq!(i128_from_str_radix("ff", 16), Some(255));
    assert_eq!(i128_from_str_radix("FF", 16), Some(255));
    assert_eq!(i128_from_str_radix("101", 2), Some(5));
    assert_eq!(i128_from_str_radix("17", 8), Some(15));
    assert_eq!(i128_from_str_radix("", 10), None);
    assert_eq!(i128_from_str_radix("-", 10), None);
    assert_eq!(i128_from_str_radix("12a", 10), None);
    assert_eq!(i128_from_str_radix("2", 2), None);
    assert_eq!(
        i128_from_str_radix("170141183460469231731687303715884105727", 10),
        Some(i128::MAX)
    );
    assert_eq!(
        i128_from_str_radix("-170141183460469231731687303715884105728", 10),
        Some(i128::MIN)
    );
    assert_eq!(i128_from_str_radix("170141183460469231731687303715884105728", 10), None);
}

#[test]
fn float_literals() {
    assert!(is_float_literal("1.5"));
    assert!(is_float_literal("1e3"));
    assert!(is_float_literal("2.5E-3"));
    assert!(is_float_literal("-0.5"));
    assert!(is_float_literal("inf"));
    assert!(is_float_literal("NaN"));
    assert!(!is_float_literal("1.5.2"));
    assert!(!is_float_literal("e3"));
    assert!(!is_float_literal(""));
    assert!(!is_float_literal("1f32"));
}
