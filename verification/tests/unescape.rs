use std::ops::Range;

use exprlang::unescape::{
    byte_from_char, unescape_byte, unescape_char, unescape_mixed, unescape_unicode, EscapeError,
    MixedUnit, Mode,
};

#[test]
fn test_unescape_char_bad() {
    fn check(literal_text: &str, expected_error: EscapeError) {
        assert_eq!(unescape_char(literal_text), Err(expected_error));
    }

    check("", EscapeError::ZeroChars);
    check(r"\", EscapeError::LoneSlash);

    check("\n", EscapeError::EscapeOnlyChar);
    check("\t", EscapeError::EscapeOnlyChar);
    check("'", EscapeError::EscapeOnlyChar);
    check("\r", EscapeError::BareCarriageReturn);

    check("spam", EscapeError::MoreThanOneChar);
    check(r"\x0ff", EscapeError::MoreThanOneChar);
    check(r#"\"a"#, EscapeError::MoreThanOneChar);
    check(r"\na", EscapeError::MoreThanOneChar);
    check(r"\ra", EscapeError::MoreThanOneChar);
    check(r"\ta", EscapeError::MoreThanOneChar);
    check(r"\\a", EscapeError::MoreThanOneChar);
    check(r"\'a", EscapeError::MoreThanOneChar);
    check(r"\0a", EscapeError::MoreThanOneChar);
    check(r"\u{0}x", EscapeError::MoreThanOneChar);
    check(r"\u{1F63b}}", EscapeError::MoreThanOneChar);

    check(r"\v", EscapeError::InvalidEscape);
    check(r"\💩", EscapeError::InvalidEscape);
    check(r"\●", EscapeError::InvalidEscape);
    check("\\\r", EscapeError::InvalidEscape);

    check(r"\x", EscapeError::TooShortHexEscape);
    check(r"\x0", EscapeError::TooShortHexEscape);
    check(r"\xf", EscapeError::TooShortHexEscape);
    check(r"\xa", EscapeError::TooShortHexEscape);
    check(r"\xx", EscapeError::InvalidCharInHexEscape);
    check(r"\xы", EscapeError::InvalidCharInHexEscape);
    check(r"\x🦀", EscapeError::InvalidCharInHexEscape);
    check(r"\xtt", EscapeError::InvalidCharInHexEscape);
    check(r"\xff", EscapeError::OutOfRangeHexEscape);
    check(r"\xFF", EscapeError::OutOfRangeHexEscape);
    check(r"\x80", EscapeError::OutOfRangeHexEscape);

    check(r"\u", EscapeError::NoBraceInUnicodeEscape);
    check(r"\u[0123]", EscapeError::NoBraceInUnicodeEscape);
    check(r"\u{0x}", EscapeError::InvalidCharInUnicodeEscape);
    check(r"\u{", EscapeError::UnclosedUnicodeEscape);
    check(r"\u{0000", EscapeError::UnclosedUnicodeEscape);
    check(r"\u{}", EscapeError::EmptyUnicodeEscape);
    check(r"\u{_0000}", EscapeError::LeadingUnderscoreUnicodeEscape);
    check(r"\u{0000000}", EscapeError::OverlongUnicodeEscape);
    check(r"\u{FFFFFF}", EscapeError::OutOfRangeUnicodeEscape);
    check(r"\u{ffffff}", EscapeError::OutOfRangeUnicodeEscape);
    check(r"\u{ffffff}", EscapeError::OutOfRangeUnicodeEscape);

    check(r"\u{DC00}", EscapeError::LoneSurrogateUnicodeEscape);
    check(r"\u{DDDD}", EscapeError::LoneSurrogateUnicodeEscape);
    check(r"\u{DFFF}", EscapeError::LoneSurrogateUnicodeEscape);

    check(r"\u{D800}", EscapeError::LoneSurrogateUnicodeEscape);
    check(r"\u{DAAA}", EscapeError::LoneSurrogateUnicodeEscape);
    check(r"\u{DBFF}", EscapeError::LoneSurrogateUnicodeEscape);
}

#[test]
fn test_unescape_char_good() {
    fn check(literal_text: &str, expected_char: char) {
        assert_eq!(unescape_char(literal_text), Ok(expected_char));
    }

    check("a", 'a');
    check("ы", 'ы');
    check("🦀", '🦀');

    check(r#"\""#, '"');
    check(r"\n", '\n');
    check(r"\r", '\r');
    check(r"\t", '\t');
    check(r"\\", '\\');
    check(r"\'", '\'');
    check(r"\0", '\0');

    check(r"\x00", '\0');
    check(r"\x5a", 'Z');
    check(r"\x5A", 'Z');
    check(r"\x7f", 127 as char);

    check(r"\u{0}", '\0');
    check(r"\u{000000}", '\0');
    check(r"\u{41}", 'A');
    check(r"\u{0041}", 'A');
    check(r"\u{00_41}", 'A');
    check(r"\u{4__1__}", 'A');
    check(r"\u{1F63b}", '😻');
}

#[test]
fn test_unescape_str_warn() {
    fn check(literal: &str, expected: &[(Range<usize>, Result<char, EscapeError>)]) {
        let unescaped = unescape_unicode(literal, Mode::Str);
        assert_eq!(unescaped, expected);
    }

    // Check we can handle escaped newlines at the end of a file.
    check("\\\n", &[]);
    check("\\\n ", &[]);

    check(
        "\\\n \u{a0} x",
        &[
            (0..5, Err(EscapeError::UnskippedWhitespaceWarning)),
            (3..5, Ok('\u{a0}')),
            (5..6, Ok(' ')),
            (6..7, Ok('x')),
        ],
    );
    check("\\\n  \n  x", &[(0..7, Err(EscapeError::MultipleSkippedLinesWarning)), (7..8, Ok('x'))]);
}

/// Collects the characters of an unescaped string, stopping at the first error.
fn collect_str(literal_text: &str, mode: Mode) -> Result<String, (Range<usize>, EscapeError)> {
    let mut buf = Ok(String::with_capacity(literal_text.len()));
    for (range, c) in unescape_unicode(literal_text, mode) {
        if let Ok(b) = &mut buf {
            match c {
                Ok(c) => b.push(c),
                Err(e) => buf = Err((range, e)),
            }
        }
    }
    buf
}

#[test]
fn test_unescape_str_good() {
    fn check(literal_text: &str, expected: &str) {
        let buf = collect_str(literal_text, Mode::Str);
        assert_eq!(buf.as_deref(), Ok(expected))
    }

    check("foo", "foo");
    check("", "");
    check(" \t\n", " \t\n");

    check("hello \\\n     world", "hello world");
    check("thread's", "thread's")
}

#[test]
fn test_unescape_byte_bad() {
    fn check(literal_text: &str, expected_error: EscapeError) {
        assert_eq!(unescape_byte(literal_text), Err(expected_error));
    }

    check("", EscapeError::ZeroChars);
    check(r"\", EscapeError::LoneSlash);

    check("\n", EscapeError::EscapeOnlyChar);
    check("\t", EscapeError::EscapeOnlyChar);
    check("'", EscapeError::EscapeOnlyChar);
    check("\r", EscapeError::BareCarriageReturn);

    check("spam", EscapeError::MoreThanOneChar);
    check(r"\x0ff", EscapeError::MoreThanOneChar);
    check(r#"\"a"#, EscapeError::MoreThanOneChar);
    check(r"\na", EscapeError::MoreThanOneChar);
    check(r"\ra", EscapeError::MoreThanOneChar);
    check(r"\ta", EscapeError::MoreThanOneChar);
    check(r"\\a", EscapeError::MoreThanOneChar);
    check(r"\'a", EscapeError::MoreThanOneChar);
    check(r"\0a", EscapeError::MoreThanOneChar);

    check(r"\v", EscapeError::InvalidEscape);
    check(r"\💩", EscapeError::InvalidEscape);
    check(r"\●", EscapeError::InvalidEscape);

    check(r"\x", EscapeError::TooShortHexEscape);
    check(r"\x0", EscapeError::TooShortHexEscape);
    check(r"\xa", EscapeError::TooShortHexEscape);
    check(r"\xf", EscapeError::TooShortHexEscape);
    check(r"\xx", EscapeError::InvalidCharInHexEscape);
    check(r"\xы", EscapeError::InvalidCharInHexEscape);
    check(r"\x🦀", EscapeError::InvalidCharInHexEscape);
    check(r"\xtt", EscapeError::InvalidCharInHexEscape);

    check(r"\u", EscapeError::NoBraceInUnicodeEscape);
    check(r"\u[0123]", EscapeError::NoBraceInUnicodeEscape);
    check(r"\u{0x}", EscapeError::InvalidCharInUnicodeEscape);
    check(r"\u{", EscapeError::UnclosedUnicodeEscape);
    check(r"\u{0000", EscapeError::UnclosedUnicodeEscape);
    check(r"\u{}", EscapeError::EmptyUnicodeEscape);
    check(r"\u{_0000}", EscapeError::LeadingUnderscoreUnicodeEscape);
    check(r"\u{0000000}", EscapeError::OverlongUnicodeEscape);

    check("ы", EscapeError::NonAsciiCharInByte);
    check("🦀", EscapeError::NonAsciiCharInByte);

    check(r"\u{0}", EscapeError::UnicodeEscapeInByte);
    check(r"\u{000000}", EscapeError::UnicodeEscapeInByte);
    check(r"\u{41}", EscapeError::UnicodeEscapeInByte);
    check(r"\u{0041}", EscapeError::UnicodeEscapeInByte);
    check(r"\u{00_41}", EscapeError::UnicodeEscapeInByte);
    check(r"\u{4__1__}", EscapeError::UnicodeEscapeInByte);
    check(r"\u{1F63b}", EscapeError::UnicodeEscapeInByte);
    check(r"\u{0}x", EscapeError::UnicodeEscapeInByte);
    check(r"\u{1F63b}}", EscapeError::UnicodeEscapeInByte);
    check(r"\u{FFFFFF}", EscapeError::UnicodeEscapeInByte);
    check(r"\u{ffffff}", EscapeError::UnicodeEscapeInByte);
    check(r"\u{ffffff}", EscapeError::UnicodeEscapeInByte);
    check(r"\u{DC00}", EscapeError::UnicodeEscapeInByte);
    check(r"\u{DDDD}", EscapeError::UnicodeEscapeInByte);
    check(r"\u{DFFF}", EscapeError::UnicodeEscapeInByte);
    check(r"\u{D800}", EscapeError::UnicodeEscapeInByte);
    check(r"\u{DAAA}", EscapeError::UnicodeEscapeInByte);
    check(r"\u{DBFF}", EscapeError::UnicodeEscapeInByte);
}

#[test]
fn test_unescape_byte_good() {
    fn check(literal_text: &str, expected_byte: u8) {
        assert_eq!(unescape_byte(literal_text), Ok(expected_byte));
    }

    check("a", b'a');

    check(r#"\""#, b'"');
    check(r"\n", b'\n');
    check(r"\r", b'\r');
    check(r"\t", b'\t');
    check(r"\\", b'\\');
    check(r"\'", b'\'');
    check(r"\0", b'\0');

    check(r"\x00", b'\0');
    check(r"\x5a", b'Z');
    check(r"\x5A", b'Z');
    check(r"\x7f", 127);
    check(r"\x80", 128);
    check(r"\xff", 255);
    check(r"\xFF", 255);
}

#[test]
fn test_unescape_byte_str_good() {
    fn check(literal_text: &str, expected: &[u8]) {
        let mut buf = Ok(Vec::with_capacity(literal_text.len()));
        for (range, c) in unescape_unicode(literal_text, Mode::ByteStr) {
            if let Ok(b) = &mut buf {
                match c {
                    Ok(c) => b.push(byte_from_char(c)),
                    Err(e) => buf = Err((range, e)),
                }
            }
        }
        assert_eq!(buf.as_deref(), Ok(expected))
    }

    check("foo", b"foo");
    check("", b"");
    check(" \t\n", b" \t\n");

    check("hello \\\n     world", b"hello world");
    check("thread's", b"thread's")
}

// ---------------------------------------------------------------------------
// Further cases.
// ---------------------------------------------------------------------------

#[test]
fn char_and_byte_modes_give_one_item_with_the_consumed_range() {
    assert_eq!(unescape_unicode("a", Mode::Char), vec![(0..1, Ok('a'))]);
    assert_eq!(unescape_unicode("ab", Mode::Char), vec![(0..2, Err(EscapeError::MoreThanOneChar))]);
    assert_eq!(unescape_unicode(r"\x4", Mode::Byte), vec![(0..3, Err(EscapeError::TooShortHexEscape))]);
    assert_eq!(unescape_unicode("ы", Mode::Char), vec![(0..2, Ok('ы'))]);
    assert_eq!(unescape_unicode("", Mode::Byte), vec![(0..0, Err(EscapeError::ZeroChars))]);
}

#[test]
fn string_errors_and_ranges() {
    assert_eq!(
        unescape_unicode("a\"b\r", Mode::Str),
        vec![
            (0..1, Ok('a')),
            (1..2, Err(EscapeError::EscapeOnlyChar)),
            (2..3, Ok('b')),
            (3..4, Err(EscapeError::BareCarriageReturn)),
        ]
    );
    assert_eq!(
        unescape_unicode("ы\\xff", Mode::ByteStr),
        vec![(0..2, Err(EscapeError::NonAsciiCharInByte)), (2..6, Ok('\u{ff}'))]
    );
    assert_eq!(
        unescape_unicode(r"\u{41}\x41", Mode::Str),
        vec![(0..6, Ok('A')), (6..10, Ok('A'))]
    );
}

#[test]
fn mixed_only_for_c_strings() {
    assert_eq!(unescape_mixed("abc", Mode::Str), vec![]);
    assert_eq!(
        unescape_mixed(r"a\0\xff\u{e9}", Mode::CStr),
        vec![
            (0..1, Ok(MixedUnit::Char('a'))),
            (1..3, Err(EscapeError::NulInCStr)),
            (3..7, Ok(MixedUnit::HighByte(0xff))),
            (7..13, Ok(MixedUnit::Char('é'))),
        ]
    );
}

#[test]
fn fatal_errors_and_warnings() {
    assert!(EscapeError::LoneSlash.is_fatal());
    assert!(EscapeError::NulInCStr.is_fatal());
    assert!(!EscapeError::UnskippedWhitespaceWarning.is_fatal());
    assert!(!EscapeError::MultipleSkippedLinesWarning.is_fatal());
}

#[test]
fn modes_and_prefixes() {
    assert!(Mode::Str.in_double_quotes());
    assert!(Mode::CStr.in_double_quotes());
    assert!(!Mode::Char.in_double_quotes());
    assert_eq!(Mode::Char.prefix_noraw(), "");
    assert_eq!(Mode::ByteStr.prefix_noraw(), "b");
    assert_eq!(Mode::CStr.prefix_noraw(), "c");
}

#[test]
fn mixed_units_from_bytes_and_chars() {
    assert_eq!(MixedUnit::from(b'a'), MixedUnit::Char('a'));
    assert_eq!(MixedUnit::from(0xa5u8), MixedUnit::HighByte(0xa5));
    assert_eq!(MixedUnit::from('¥'), MixedUnit::Char('¥'));
    assert_eq!(byte_from_char('\u{ff}'), 0xff);
}

#[test]
fn plain_text_unescapes_to_itself() {
    let items = unescape_unicode("aé z", Mode::Str);
    assert_eq!(
        items,
        vec![(0..1, Ok('a')), (1..3, Ok('é')), (3..4, Ok(' ')), (4..5, Ok('z'))]
    );
}

#[test]
fn characters_come_back_from_their_escapes() {
    for c in ['a', 'Z', '0', '\0', '\\', '\n', '\'', 'é', '€', '😀', '\u{10FFFF}'] {
        assert_eq!(unescape_char(&format!("\\u{{{:x}}}", c as u32)), Ok(c));
        assert_eq!(unescape_char(&format!("\\u{{{:X}}}", c as u32)), Ok(c));
        if !['\\', '\n', '\t', '\r', '\''].contains(&c) {
            assert_eq!(unescape_char(&c.to_string()), Ok(c));
        }
        if (c as u32) < 0x80 {
            assert_eq!(unescape_char(&format!("\\x{:02x}", c as u32)), Ok(c));
        }
    }
}

#[test]
fn bytes_agree_with_chars_on_ascii() {
    for s in ["", r"\", "\n", "\r", "spam", r"\v", r"\x0", r"\xtt", "a", r"\x41", r"\n", r"\0"] {
        assert_eq!(unescape_byte(s), unescape_char(s).map(|c| c as u8));
    }
}
