//! Unescaping of the contents of char, byte and string literals.
//!
//! The input is the text between the quotes; the output is the unescaped
//! character (for char and byte literals) or the sequence of unescaped
//! characters, each with the byte range of the input it came from, together
//! with the errors and warnings met on the way.

use std::ops::Range;
use vstd::prelude::*;

use crate::text::{
    byte_offset, byte_offsets, char_from_u32, chars_of, hex_digit, is_ascii_char, is_char_code,
    is_unicode_whitespace, lemma_byte_offset_mono, to_hex_digit, unicode_whitespace, utf8_len,
};

verus! {

/// What can go wrong while unescaping a literal.
#[derive(Debug, Clone, Copy, PartialEq, Eq, Structural)]
pub enum EscapeError {
    /// Expected 1 char, got 0
    ZeroChars,
    /// Expected 1 char, but got more than 1
    MoreThanOneChar,
    /// Escaped `\` char without continuation
    LoneSlash,
    /// Invalid escape character e.g. `\z`
    InvalidEscape,
    /// Raw `\r` encountered
    BareCarriageReturn,
    /// Unescaped char that was expected to be escaped e.g. raw `\t`
    EscapeOnlyChar,
    /// Numeric char escape is too short e.g. `\x1`
    TooShortHexEscape,
    /// Invalid char in numeric escape e.g. `\xz`
    InvalidCharInHexEscape,
    /// Character code in numeric escape is non-ascii e.g. `\xFF`
    OutOfRangeHexEscape,
    /// `\u` not followed by `{`
    NoBraceInUnicodeEscape,
    /// Non-hex value in `\u{..}` e.g. `\u{33EQ}`
    InvalidCharInUnicodeEscape,
    /// (`\u{}`)
    EmptyUnicodeEscape,
    /// No closing brace in `\u{..}` e.g. `\u{12`
    UnclosedUnicodeEscape,
    /// (`\u{_12}`)
    LeadingUnderscoreUnicodeEscape,
    /// More than 6 chars in `\u{..}` e.g. `\u{10FFFF_FF}`
    OverlongUnicodeEscape,
    /// Invalid in-bound unicode char code e.g. `\u{DFFF}`
    LoneSurrogateUnicodeEscape,
    /// Out of bounds unicode char, e.g. `\u{FFFFFF}`
    OutOfRangeUnicodeEscape,
    /// Unicode escape code in byte literal.
    UnicodeEscapeInByte,
    /// Non-ascii character in byte literal or byte string literal
    NonAsciiCharInByte,
    /// `\0` in a c string literal
    NulInCStr,
    /// After a line ending with `\`, the next line contains whitespace
    /// chars that are not skipped.
    UnskippedWhitespaceWarning,
    /// After a line ending with `\`, multiple lines are skipped.
    MultipleSkippedLinesWarning,
}

impl EscapeError {
    /// Whether this is an actual error rather than a warning.
    pub open spec fn spec_is_fatal(self) -> bool {
        !(self is UnskippedWhitespaceWarning || self is MultipleSkippedLinesWarning)
    }

    /// The name of this error, as `Debug` writes it.
    pub open spec fn spec_name(self) -> Seq<char> {
        match self {
            EscapeError::ZeroChars => "ZeroChars"@,
            EscapeError::MoreThanOneChar => "MoreThanOneChar"@,
            EscapeError::LoneSlash => "LoneSlash"@,
            EscapeError::InvalidEscape => "InvalidEscape"@,
            EscapeError::BareCarriageReturn => "BareCarriageReturn"@,
            EscapeError::EscapeOnlyChar => "EscapeOnlyChar"@,
            EscapeError::TooShortHexEscape => "TooShortHexEscape"@,
            EscapeError::InvalidCharInHexEscape => "InvalidCharInHexEscape"@,
            EscapeError::OutOfRangeHexEscape => "OutOfRangeHexEscape"@,
            EscapeError::NoBraceInUnicodeEscape => "NoBraceInUnicodeEscape"@,
            EscapeError::InvalidCharInUnicodeEscape => "InvalidCharInUnicodeEscape"@,
            EscapeError::EmptyUnicodeEscape => "EmptyUnicodeEscape"@,
            EscapeError::UnclosedUnicodeEscape => "UnclosedUnicodeEscape"@,
            EscapeError::LeadingUnderscoreUnicodeEscape => "LeadingUnderscoreUnicodeEscape"@,
            EscapeError::OverlongUnicodeEscape => "OverlongUnicodeEscape"@,
            EscapeError::LoneSurrogateUnicodeEscape => "LoneSurrogateUnicodeEscape"@,
            EscapeError::OutOfRangeUnicodeEscape => "OutOfRangeUnicodeEscape"@,
            EscapeError::UnicodeEscapeInByte => "UnicodeEscapeInByte"@,
            EscapeError::NonAsciiCharInByte => "NonAsciiCharInByte"@,
            EscapeError::NulInCStr => "NulInCStr"@,
            EscapeError::UnskippedWhitespaceWarning => "UnskippedWhitespaceWarning"@,
            EscapeError::MultipleSkippedLinesWarning => "MultipleSkippedLinesWarning"@,
        }
    }

    /// The name of this error, as `Debug` writes it.
    pub fn name(&self) -> (r: &'static str)
        ensures
            r@ == self.spec_name(),
    {
        match self {
            EscapeError::ZeroChars => "ZeroChars",
            EscapeError::MoreThanOneChar => "MoreThanOneChar",
            EscapeError::LoneSlash => "LoneSlash",
            EscapeError::InvalidEscape => "InvalidEscape",
            EscapeError::BareCarriageReturn => "BareCarriageReturn",
            EscapeError::EscapeOnlyChar => "EscapeOnlyChar",
            EscapeError::TooShortHexEscape => "TooShortHexEscape",
            EscapeError::InvalidCharInHexEscape => "InvalidCharInHexEscape",
            EscapeError::OutOfRangeHexEscape => "OutOfRangeHexEscape",
            EscapeError::NoBraceInUnicodeEscape => "NoBraceInUnicodeEscape",
            EscapeError::InvalidCharInUnicodeEscape => "InvalidCharInUnicodeEscape",
            EscapeError::EmptyUnicodeEscape => "EmptyUnicodeEscape",
            EscapeError::UnclosedUnicodeEscape => "UnclosedUnicodeEscape",
            EscapeError::LeadingUnderscoreUnicodeEscape => "LeadingUnderscoreUnicodeEscape",
            EscapeError::OverlongUnicodeEscape => "OverlongUnicodeEscape",
            EscapeError::LoneSurrogateUnicodeEscape => "LoneSurrogateUnicodeEscape",
            EscapeError::OutOfRangeUnicodeEscape => "OutOfRangeUnicodeEscape",
            EscapeError::UnicodeEscapeInByte => "UnicodeEscapeInByte",
            EscapeError::NonAsciiCharInByte => "NonAsciiCharInByte",
            EscapeError::NulInCStr => "NulInCStr",
            EscapeError::UnskippedWhitespaceWarning => "UnskippedWhitespaceWarning",
            EscapeError::MultipleSkippedLinesWarning => "MultipleSkippedLinesWarning",
        }
    }

    /// Returns true for actual errors as opposed to warnings.
    pub fn is_fatal(&self) -> (b: bool)
        ensures
            b == self.spec_is_fatal(),
    {
        match self {
            EscapeError::UnskippedWhitespaceWarning | EscapeError::MultipleSkippedLinesWarning => false,
            _ => true,
        }
    }
}

/// The kind of literal whose contents are unescaped.
#[derive(Debug, Clone, Copy, PartialEq, Eq, Structural)]
pub enum Mode {
    Char,
    Byte,
    Str,
    ByteStr,
    CStr,
}

impl Mode {
    /// Whether the literal is written between double quotes.
    pub open spec fn spec_in_double_quotes(self) -> bool {
        self is Str || self is ByteStr || self is CStr
    }

    /// Whether `\x80`..`\xff` are allowed.
    pub open spec fn spec_allow_high_bytes(self) -> bool {
        self is Byte || self is ByteStr || self is CStr
    }

    /// Whether unicode (non-ascii) chars are allowed.
    pub open spec fn spec_allow_unicode_chars(self) -> bool {
        self is Char || self is Str || self is CStr
    }

    /// Whether unicode escapes (`\u`) are allowed.
    pub open spec fn spec_allow_unicode_escapes(self) -> bool {
        self is Char || self is Str || self is CStr
    }

    /// Whether the literal is written between double quotes.
    pub fn in_double_quotes(self) -> (b: bool)
        ensures
            b == self.spec_in_double_quotes(),
    {
        match self {
            Mode::Str | Mode::ByteStr | Mode::CStr => true,
            Mode::Char | Mode::Byte => false,
        }
    }

    /// Are `\x80`..`\xff` allowed?
    fn allow_high_bytes(self) -> (b: bool)
        ensures
            b == self.spec_allow_high_bytes(),
    {
        match self {
            Mode::Char | Mode::Str => false,
            Mode::Byte | Mode::ByteStr | Mode::CStr => true,
        }
    }

    /// Are unicode (non-ascii) chars allowed?
    fn allow_unicode_chars(self) -> (b: bool)
        ensures
            b == self.spec_allow_unicode_chars(),
    {
        match self {
            Mode::Byte | Mode::ByteStr => false,
            Mode::Char | Mode::Str | Mode::CStr => true,
        }
    }

    /// Are unicode escapes (`\u`) allowed?
    fn allow_unicode_escapes(self) -> (b: bool)
        ensures
            b == self.spec_allow_unicode_escapes(),
    {
        match self {
            Mode::Byte | Mode::ByteStr => false,
            Mode::Char | Mode::Str | Mode::CStr => true,
        }
    }

    /// The prefix written before the opening quote of a literal of this kind.
    pub fn prefix_noraw(self) -> (p: &'static str)
        ensures
            p@ == (match self {
                Mode::Char | Mode::Str => ""@,
                Mode::Byte | Mode::ByteStr => "b"@,
                Mode::CStr => "c"@,
            }),
    {
        match self {
            Mode::Char | Mode::Str => "",
            Mode::Byte | Mode::ByteStr => "b",
            Mode::CStr => "c",
        }
    }
}

/// A unit of a mixed utf-8 string literal.
#[derive(Debug, Clone, Copy, PartialEq, Eq, Structural)]
pub enum MixedUnit {
    /// Used for ASCII chars (written directly or via `\x00`..`\x7f` escapes)
    /// and unicode chars (written directly or via `\u` escapes).
    Char(char),
    /// Used for high bytes (`\x80`..`\xff`).
    HighByte(u8),
}

/// The unit that a byte stands for: a character when it is ASCII, a high byte otherwise.
pub open spec fn unit_of_byte(b: u8) -> MixedUnit {
    if b < 0x80 {
        MixedUnit::Char(b as char)
    } else {
        MixedUnit::HighByte(b)
    }
}

/// The character that a unit is read as where the literal yields characters.
pub open spec fn unit_char(u: MixedUnit) -> char {
    match u {
        MixedUnit::Char(c) => c,
        MixedUnit::HighByte(b) => b as char,
    }
}

/// `unit_char` applied to the success value of a result.
pub open spec fn result_char(r: Result<MixedUnit, EscapeError>) -> Result<char, EscapeError> {
    match r {
        Ok(u) => Ok(unit_char(u)),
        Err(e) => Err(e),
    }
}

impl From<char> for MixedUnit {
    fn from(value: char) -> (u: MixedUnit) {
        MixedUnit::Char(value)
    }
}

impl vstd::std_specs::convert::FromSpecImpl<char> for MixedUnit {
    open spec fn obeys_from_spec() -> bool {
        true
    }

    open spec fn from_spec(v: char) -> MixedUnit {
        MixedUnit::Char(v)
    }
}

impl From<u8> for MixedUnit {
    fn from(value: u8) -> (u: MixedUnit) {
        if value < 0x80 {
            MixedUnit::Char(value as char)
        } else {
            MixedUnit::HighByte(value)
        }
    }
}

impl vstd::std_specs::convert::FromSpecImpl<u8> for MixedUnit {
    open spec fn obeys_from_spec() -> bool {
        true
    }

    open spec fn from_spec(v: u8) -> MixedUnit {
        unit_of_byte(v)
    }
}

// ---------------------------------------------------------------------------
// The grammar of escapes, as functions from a position in the literal's
// characters to an outcome and the position just after what was consumed.
// ---------------------------------------------------------------------------

/// `\x` followed by two hex digits, `i` being the position after the `x`.
pub open spec fn spec_scan_hex(s: Seq<char>, i: int, mode: Mode) -> (Result<MixedUnit, EscapeError>, int) {
    if i >= s.len() {
        (Err(EscapeError::TooShortHexEscape), i)
    } else {
        match hex_digit(s[i]) {
            None => (Err(EscapeError::InvalidCharInHexEscape), i + 1),
            Some(hi) => if i + 1 >= s.len() {
                (Err(EscapeError::TooShortHexEscape), i + 1)
            } else {
                match hex_digit(s[i + 1]) {
                    None => (Err(EscapeError::InvalidCharInHexEscape), i + 2),
                    Some(lo) => {
                        let v = (hi * 16 + lo) as u8;
                        if !mode.spec_allow_high_bytes() && v >= 0x80 {
                            (Err(EscapeError::OutOfRangeHexEscape), i + 2)
                        } else {
                            (Ok(unit_of_byte(v)), i + 2)
                        }
                    },
                }
            },
        }
    }
}

/// The digits of `\u{..}` from position `k` on, after `n` digits that gave `v`.
pub open spec fn spec_scan_unicode_digits(s: Seq<char>, k: int, n: nat, v: u32, allow: bool) -> (
    Result<char, EscapeError>,
    int,
)
    decreases s.len() - k,
{
    if k < 0 || k >= s.len() {
        (Err(EscapeError::UnclosedUnicodeEscape), k)
    } else if s[k] == '_' {
        spec_scan_unicode_digits(s, k + 1, n, v, allow)
    } else if s[k] == '}' {
        if n > 6 {
            (Err(EscapeError::OverlongUnicodeEscape), k + 1)
        } else if !allow {
            (Err(EscapeError::UnicodeEscapeInByte), k + 1)
        } else if is_char_code(v as nat) {
            (Ok(v as char), k + 1)
        } else if v > 0x10FFFF {
            (Err(EscapeError::OutOfRangeUnicodeEscape), k + 1)
        } else {
            (Err(EscapeError::LoneSurrogateUnicodeEscape), k + 1)
        }
    } else {
        match hex_digit(s[k]) {
            None => (Err(EscapeError::InvalidCharInUnicodeEscape), k + 1),
            Some(d) => if n + 1 > 6 {
                spec_scan_unicode_digits(s, k + 1, n + 1, v, allow)
            } else {
                spec_scan_unicode_digits(s, k + 1, n + 1, (v * 16 + d) as u32, allow)
            },
        }
    }
}

/// `\u{..}`, `i` being the position after the `u`.
pub open spec fn spec_scan_unicode(s: Seq<char>, i: int, allow: bool) -> (Result<char, EscapeError>, int) {
    if i >= s.len() {
        (Err(EscapeError::NoBraceInUnicodeEscape), i)
    } else if s[i] != '{' {
        (Err(EscapeError::NoBraceInUnicodeEscape), i + 1)
    } else if i + 1 >= s.len() {
        (Err(EscapeError::UnclosedUnicodeEscape), i + 1)
    } else if s[i + 1] == '_' {
        (Err(EscapeError::LeadingUnderscoreUnicodeEscape), i + 2)
    } else if s[i + 1] == '}' {
        (Err(EscapeError::EmptyUnicodeEscape), i + 2)
    } else {
        match hex_digit(s[i + 1]) {
            None => (Err(EscapeError::InvalidCharInUnicodeEscape), i + 2),
            Some(d) => spec_scan_unicode_digits(s, i + 2, 1, d, allow),
        }
    }
}

/// The escape that follows a backslash, `i` being the position after the backslash.
pub open spec fn spec_scan_escape(s: Seq<char>, i: int, mode: Mode) -> (Result<MixedUnit, EscapeError>, int) {
    if i >= s.len() {
        (Err(EscapeError::LoneSlash), i)
    } else {
        let c = s[i];
        if c == '"' {
            (Ok(MixedUnit::Char('"')), i + 1)
        } else if c == 'n' {
            (Ok(MixedUnit::Char('\n')), i + 1)
        } else if c == 'r' {
            (Ok(MixedUnit::Char('\r')), i + 1)
        } else if c == 't' {
            (Ok(MixedUnit::Char('\t')), i + 1)
        } else if c == '\\' {
            (Ok(MixedUnit::Char('\\')), i + 1)
        } else if c == '\'' {
            (Ok(MixedUnit::Char('\'')), i + 1)
        } else if c == '0' {
            (Ok(MixedUnit::Char('\0')), i + 1)
        } else if c == 'x' {
            spec_scan_hex(s, i + 1, mode)
        } else if c == 'u' {
            let (r, e) = spec_scan_unicode(s, i + 1, mode.spec_allow_unicode_escapes());
            (
                match r {
                    Ok(ch) => Ok(MixedUnit::Char(ch)),
                    Err(er) => Err(er),
                },
                e,
            )
        } else {
            (Err(EscapeError::InvalidEscape), i + 1)
        }
    }
}

/// A character written directly, checked against the ASCII-only modes.
pub open spec fn spec_ascii_check(c: char, allow_unicode_chars: bool) -> Result<char, EscapeError> {
    if allow_unicode_chars || is_ascii_char(c) {
        Ok(c)
    } else {
        Err(EscapeError::NonAsciiCharInByte)
    }
}

/// The contents of a char or byte literal: the outcome and how many
/// characters were consumed to reach it.
pub open spec fn spec_char_or_byte(s: Seq<char>, mode: Mode) -> (Result<char, EscapeError>, int) {
    if s.len() == 0 {
        (Err(EscapeError::ZeroChars), 0)
    } else {
        let c = s[0];
        let (r, e) = if c == '\\' {
            let (u, e) = spec_scan_escape(s, 1, mode);
            (result_char(u), e)
        } else if c == '\n' || c == '\t' || c == '\'' {
            (Err(EscapeError::EscapeOnlyChar), 1)
        } else if c == '\r' {
            (Err(EscapeError::BareCarriageReturn), 1)
        } else {
            (spec_ascii_check(c, mode.spec_allow_unicode_chars()), 1)
        };
        match r {
            Err(er) => (Err(er), e),
            Ok(ch) => if e < s.len() {
                (Err(EscapeError::MoreThanOneChar), e + 1)
            } else {
                (Ok(ch), e)
            },
        }
    }
}

/// The unescaped character of a char literal whose contents are `s`.
pub open spec fn spec_unescape_char(s: Seq<char>) -> Result<char, EscapeError> {
    spec_char_or_byte(s, Mode::Char).0
}

/// The unescaped byte of a byte literal whose contents are `s`.
pub open spec fn spec_unescape_byte(s: Seq<char>) -> Result<u8, EscapeError> {
    match spec_char_or_byte(s, Mode::Byte).0 {
        Ok(c) => Ok(c as u8),
        Err(e) => Err(e),
    }
}

/// Whether `c` is skipped after a backslash that ends a line.
pub open spec fn is_skipped_space(c: char) -> bool {
    c == ' ' || c == '\t' || c == '\n' || c == '\r'
}

/// The first position at or after `p` that holds no skipped space.
pub open spec fn spec_space_run_end(s: Seq<char>, p: int) -> int
    decreases s.len() - p,
{
    if 0 <= p < s.len() && is_skipped_space(s[p]) {
        spec_space_run_end(s, p + 1)
    } else {
        p
    }
}

/// One item of an unescaped string: a byte range of the input and what it gave.
pub type SpecItem<T> = (int, int, Result<T, EscapeError>);

/// The warnings given when the backslash at `i` ends a line and the
/// spaces that follow it run up to `q`.
pub open spec fn spec_skip_warnings(s: Seq<char>, i: int, q: int) -> Seq<SpecItem<MixedUnit>> {
    let start = byte_offset(s, i) as int;
    let multiple = exists|k: int| i + 2 <= k < q && s[k] == '\n';
    let w1: Seq<SpecItem<MixedUnit>> = if multiple {
        seq![(start, byte_offset(s, q) as int, Err(EscapeError::MultipleSkippedLinesWarning))]
    } else {
        seq![]
    };
    let w2: Seq<SpecItem<MixedUnit>> = if q < s.len() && is_unicode_whitespace(s[q]) {
        seq![(start, byte_offset(s, q + 1) as int, Err(EscapeError::UnskippedWhitespaceWarning))]
    } else {
        seq![]
    };
    w1 + w2
}

/// One step of a string literal at position `i`: the items it gives and the next position.
pub open spec fn spec_str_step(s: Seq<char>, i: int, mode: Mode) -> (Seq<SpecItem<MixedUnit>>, int) {
    let c = s[i];
    let start = byte_offset(s, i) as int;
    if c == '\\' && i + 1 < s.len() && s[i + 1] == '\n' {
        let q = spec_space_run_end(s, i + 1);
        (spec_skip_warnings(s, i, q), q)
    } else {
        let (r, e) = if c == '\\' {
            spec_scan_escape(s, i + 1, mode)
        } else if c == '"' {
            (Err(EscapeError::EscapeOnlyChar), i + 1)
        } else if c == '\r' {
            (Err(EscapeError::BareCarriageReturn), i + 1)
        } else {
            (
                match spec_ascii_check(c, mode.spec_allow_unicode_chars()) {
                    Ok(ch) => Ok(MixedUnit::Char(ch)),
                    Err(er) => Err(er),
                },
                i + 1,
            )
        };
        (seq![(start, byte_offset(s, e) as int, r)], e)
    }
}

/// The items of a string literal from position `i` on.
pub open spec fn spec_str_from(s: Seq<char>, i: int, mode: Mode) -> Seq<SpecItem<MixedUnit>>
    decreases s.len() - i,
{
    if i < 0 || i >= s.len() {
        seq![]
    } else {
        let (items, next) = spec_str_step(s, i, mode);
        if i < next <= s.len() {
            items + spec_str_from(s, next, mode)
        } else {
            seq![]
        }
    }
}

/// The items of a string literal whose contents are `s`.
pub open spec fn spec_unescape_str(s: Seq<char>, mode: Mode) -> Seq<SpecItem<MixedUnit>> {
    spec_str_from(s, 0, mode)
}

/// An item with its unit read as a character.
pub open spec fn item_char(t: SpecItem<MixedUnit>) -> SpecItem<char> {
    (t.0, t.1, result_char(t.2))
}

/// An item of a C string literal, where a NUL character is an error.
pub open spec fn item_cstr(t: SpecItem<MixedUnit>) -> SpecItem<MixedUnit> {
    if t.2 == Ok::<MixedUnit, EscapeError>(MixedUnit::Char('\0')) {
        (t.0, t.1, Err(EscapeError::NulInCStr))
    } else {
        t
    }
}

/// What `unescape_unicode` yields for contents `s` in `mode`.
pub open spec fn spec_unescape_unicode(s: Seq<char>, mode: Mode) -> Seq<SpecItem<char>> {
    if mode is Char || mode is Byte {
        let (r, e) = spec_char_or_byte(s, mode);
        seq![(0, byte_offset(s, e) as int, r)]
    } else {
        spec_unescape_str(s, mode).map_values(|t: SpecItem<MixedUnit>| item_char(t))
    }
}

/// What `unescape_mixed` yields for contents `s` in `mode`.
pub open spec fn spec_unescape_mixed(s: Seq<char>, mode: Mode) -> Seq<SpecItem<MixedUnit>> {
    if mode is CStr {
        spec_unescape_str(s, mode).map_values(|t: SpecItem<MixedUnit>| item_cstr(t))
    } else {
        seq![]
    }
}

/// An item as the library hands it out, read as plain integers.
pub open spec fn item_view<T>(x: (Range<usize>, Result<T, EscapeError>)) -> SpecItem<T> {
    (x.0.start as int, x.0.end as int, x.1)
}

// ---------------------------------------------------------------------------
// Executable unescaping.
// ---------------------------------------------------------------------------

proof fn lemma_scan_unicode_digits_end(s: Seq<char>, k: int, n: nat, v: u32, allow: bool)
    requires
        0 <= k <= s.len(),
    ensures
        k <= spec_scan_unicode_digits(s, k, n, v, allow).1 <= s.len(),
    decreases s.len() - k,
{
    if k < s.len() {
        if s[k] == '_' {
            lemma_scan_unicode_digits_end(s, k + 1, n, v, allow);
        } else if s[k] != '}' {
            match hex_digit(s[k]) {
                None => {},
                Some(d) => {
                    if n + 1 > 6 {
                        lemma_scan_unicode_digits_end(s, k + 1, n + 1, v, allow);
                    } else {
                        lemma_scan_unicode_digits_end(s, k + 1, n + 1, (v * 16 + d) as u32, allow);
                    }
                },
            }
        }
    }
}

/// The escape after a backslash consumes at least nothing and stays inside the literal.
proof fn lemma_scan_escape_end(s: Seq<char>, i: int, mode: Mode)
    requires
        0 <= i <= s.len(),
    ensures
        i <= spec_scan_escape(s, i, mode).1 <= s.len(),
{
    if i < s.len() && s[i] == 'u' && i + 2 < s.len() + 1 && i + 1 < s.len() && s[i + 1] == '{' {
        if i + 2 < s.len() {
            match hex_digit(s[i + 2]) {
                None => {},
                Some(d) => lemma_scan_unicode_digits_end(s, i + 3, 1, d, mode.spec_allow_unicode_escapes()),
            }
        }
    }
}

proof fn lemma_space_run_end(s: Seq<char>, p: int)
    requires
        0 <= p <= s.len(),
    ensures
        p <= spec_space_run_end(s, p) <= s.len(),
        forall|k: int| p <= k < spec_space_run_end(s, p) ==> is_skipped_space(#[trigger] s[k]),
        spec_space_run_end(s, p) < s.len() ==> !is_skipped_space(s[spec_space_run_end(s, p)]),
    decreases s.len() - p,
{
    if p < s.len() && is_skipped_space(s[p]) {
        lemma_space_run_end(s, p + 1);
    }
}

fn ascii_check(c: char, allow_unicode_chars: bool) -> (r: Result<char, EscapeError>)
    ensures
        r == spec_ascii_check(c, allow_unicode_chars),
{
    if allow_unicode_chars || (c as u32) < 0x80 {
        Ok(c)
    } else {
        Err(EscapeError::NonAsciiCharInByte)
    }
}

fn unit_from_byte(b: u8) -> (u: MixedUnit)
    ensures
        u == unit_of_byte(b),
{
    if b < 0x80 {
        MixedUnit::Char(b as char)
    } else {
        MixedUnit::HighByte(b)
    }
}

fn scan_hex(s: &Vec<char>, i: usize, mode: Mode) -> (res: (Result<MixedUnit, EscapeError>, usize))
    requires
        i <= s.len(),
    ensures
        (res.0, res.1 as int) == spec_scan_hex(s@, i as int, mode),
{
    if i >= s.len() {
        return (Err(EscapeError::TooShortHexEscape), i);
    }
    let hi = match to_hex_digit(s[i]) {
        None => return (Err(EscapeError::InvalidCharInHexEscape), i + 1),
        Some(d) => d,
    };
    if i + 1 >= s.len() {
        return (Err(EscapeError::TooShortHexEscape), i + 1);
    }
    let lo = match to_hex_digit(s[i + 1]) {
        None => return (Err(EscapeError::InvalidCharInHexEscape), i + 2),
        Some(d) => d,
    };
    let value = (hi * 16 + lo) as u8;
    if !mode.allow_high_bytes() && value >= 0x80 {
        (Err(EscapeError::OutOfRangeHexEscape), i + 2)
    } else {
        (Ok(unit_from_byte(value)), i + 2)
    }
}

fn scan_unicode(s: &Vec<char>, i: usize, allow_unicode_escapes: bool) -> (res: (
    Result<char, EscapeError>,
    usize,
))
    requires
        i <= s.len(),
    ensures
        (res.0, res.1 as int) == spec_scan_unicode(s@, i as int, allow_unicode_escapes),
{
    // already parsed '\u' so now just parse '{..}'
    if i >= s.len() {
        return (Err(EscapeError::NoBraceInUnicodeEscape), i);
    }
    if s[i] != '{' {
        return (Err(EscapeError::NoBraceInUnicodeEscape), i + 1);
    }
    if i + 1 >= s.len() {
        return (Err(EscapeError::UnclosedUnicodeEscape), i + 1);
    }
    // first char must be hex digit
    let first = s[i + 1];
    if first == '_' {
        return (Err(EscapeError::LeadingUnderscoreUnicodeEscape), i + 2);
    }
    if first == '}' {
        return (Err(EscapeError::EmptyUnicodeEscape), i + 2);
    }
    let mut value: u32 = match to_hex_digit(first) {
        None => return (Err(EscapeError::InvalidCharInUnicodeEscape), i + 2),
        Some(d) => d,
    };
    let mut n_digits: usize = 1;
    let mut k: usize = i + 2;
    proof {
        reveal_with_fuel(pow16, 2);
    }
    let ghost allow = allow_unicode_escapes;
    // first char is valid, now parse the rest of the number
    while k < s.len()
        invariant
            i + 2 <= k <= s.len(),
            1 <= n_digits <= k,
            n_digits <= 6 ==> value < pow16(n_digits as nat),
            spec_scan_unicode(s@, i as int, allow) == spec_scan_unicode_digits(
                s@,
                k as int,
                n_digits as nat,
                value,
                allow,
            ),
            allow == allow_unicode_escapes,
        decreases s.len() - k,
    {
        let c = s[k];
        if c == '_' {
            k = k + 1;
        } else if c == '}' {
            if n_digits > 6 {
                return (Err(EscapeError::OverlongUnicodeEscape), k + 1);
            }
            // incorrect syntax has higher priority for error reporting
            // than unallowed values for literals
            if !allow_unicode_escapes {
                return (Err(EscapeError::UnicodeEscapeInByte), k + 1);
            }
            return match char_from_u32(value) {
                Some(ch) => {
                    proof {
                        vstd::utf8::char_u32_cast(ch, value);
                    }
                    (Ok(ch), k + 1)
                },
                None => if value > 0x10FFFF {
                    (Err(EscapeError::OutOfRangeUnicodeEscape), k + 1)
                } else {
                    (Err(EscapeError::LoneSurrogateUnicodeEscape), k + 1)
                },
            };
        } else {
            let digit = match to_hex_digit(c) {
                None => return (Err(EscapeError::InvalidCharInUnicodeEscape), k + 1),
                Some(d) => d,
            };
            n_digits = n_digits + 1;
            if n_digits <= 6 {
                // stop updating the value once it is incorrect for sure.
                proof {
                    lemma_pow16_step((n_digits - 1) as nat);
                }
                value = value * 16 + digit;
            }
            k = k + 1;
        }
    }
    (Err(EscapeError::UnclosedUnicodeEscape), k)
}

/// 16 to the power `n`.
spec fn pow16(n: nat) -> nat
    decreases n,
{
    if n == 0 {
        1
    } else {
        16 * pow16((n - 1) as nat)
    }
}

proof fn lemma_pow16_step(n: nat)
    requires
        1 <= n <= 5,
    ensures
        pow16(n + 1) == 16 * pow16(n),
        pow16(n + 1) <= 0x100_0000,
{
    reveal_with_fuel(pow16, 7);
}

fn scan_escape(s: &Vec<char>, i: usize, mode: Mode) -> (res: (Result<MixedUnit, EscapeError>, usize))
    requires
        i <= s.len(),
    ensures
        (res.0, res.1 as int) == spec_scan_escape(s@, i as int, mode),
{
    // Previous char was '\\', unescape what follows.
    if i >= s.len() {
        return (Err(EscapeError::LoneSlash), i);
    }
    let c = s[i];
    let res: char = if c == '"' {
        '"'
    } else if c == 'n' {
        '\n'
    } else if c == 'r' {
        '\r'
    } else if c == 't' {
        '\t'
    } else if c == '\\' {
        '\\'
    } else if c == '\'' {
        '\''
    } else if c == '0' {
        '\0'
    } else if c == 'x' {
        return scan_hex(s, i + 1, mode);
    } else if c == 'u' {
        let (r, e) = scan_unicode(s, i + 1, mode.allow_unicode_escapes());
        return (
            match r {
                Ok(ch) => Ok(MixedUnit::Char(ch)),
                Err(er) => Err(er),
            },
            e,
        );
    } else {
        return (Err(EscapeError::InvalidEscape), i + 1);
    };
    (Ok(MixedUnit::Char(res)), i + 1)
}

fn char_of_unit(u: MixedUnit) -> (c: char)
    ensures
        c == unit_char(u),
{
    match u {
        MixedUnit::Char(c) => c,
        MixedUnit::HighByte(b) => b as char,
    }
}

fn unescape_char_or_byte(s: &Vec<char>, mode: Mode) -> (res: (Result<char, EscapeError>, usize))
    ensures
        (res.0, res.1 as int) == spec_char_or_byte(s@, mode),
        res.1 <= s.len(),
{
    if s.len() == 0 {
        return (Err(EscapeError::ZeroChars), 0);
    }
    let c = s[0];
    let (r, e) = if c == '\\' {
        proof {
            lemma_scan_escape_end(s@, 1, mode);
        }
        let (u, e) = scan_escape(s, 1, mode);
        (
            match u {
                Ok(unit) => Ok(char_of_unit(unit)),
                Err(er) => Err(er),
            },
            e,
        )
    } else if c == '\n' || c == '\t' || c == '\'' {
        (Err(EscapeError::EscapeOnlyChar), 1)
    } else if c == '\r' {
        (Err(EscapeError::BareCarriageReturn), 1)
    } else {
        (ascii_check(c, mode.allow_unicode_chars()), 1)
    };
    match r {
        Err(er) => (Err(er), e),
        Ok(ch) => if e < s.len() {
            (Err(EscapeError::MoreThanOneChar), e + 1)
        } else {
            (Ok(ch), e)
        },
    }
}

/// Takes the contents of a char literal without quotes
/// and returns an unescaped char or an error.
pub fn unescape_char(src: &str) -> (r: Result<char, EscapeError>)
    ensures
        r == spec_unescape_char(src@),
{
    let s = chars_of(src);
    unescape_char_or_byte(&s, Mode::Char).0
}

/// Takes the contents of a byte literal without quotes
/// and returns an unescaped byte or an error.
pub fn unescape_byte(src: &str) -> (r: Result<u8, EscapeError>)
    ensures
        r == spec_unescape_byte(src@),
{
    let s = chars_of(src);
    let (res, _) = unescape_char_or_byte(&s, Mode::Byte);
    proof {
        lemma_byte_mode_char_fits(s@);
    }
    match res {
        Ok(c) => Ok(byte_from_char(c)),
        Err(e) => Err(e),
    }
}

/// The byte that `c` stands for in a byte literal.
pub fn byte_from_char(c: char) -> (b: u8)
    requires
        c as u32 <= 0xFF,
    ensures
        b as u32 == c as u32,
        b == c as u8,
{
    let res = c as u32;
    res as u8
}

proof fn lemma_byte_of_char(c: char)
    requires
        c as u32 <= 0xFF,
    ensures
        (c as u8) as u32 == c as u32,
{
}

/// In a byte literal every character that comes out stands for a byte.
pub proof fn lemma_byte_mode_char_fits(s: Seq<char>)
    ensures
        spec_char_or_byte(s, Mode::Byte).0 matches Ok(c) ==> c as u32 <= 0xFF,
{
    if s.len() > 0 && s[0] == '\\' {
        lemma_scan_escape_units_fit(s, 1, Mode::Byte);
    }
}

/// Where unicode escapes are refused, an escape gives a character of at most 0xFF.
proof fn lemma_scan_escape_units_fit(s: Seq<char>, i: int, mode: Mode)
    requires
        !mode.spec_allow_unicode_escapes(),
        0 <= i <= s.len(),
    ensures
        spec_scan_escape(s, i, mode).0 matches Ok(u) ==> unit_char(u) as u32 <= 0xFF,
{
    if i < s.len() && s[i] == 'u' {
        if i + 2 < s.len() && s[i + 1] == '{' {
            match hex_digit(s[i + 2]) {
                None => {},
                Some(d) => lemma_unicode_digits_refused(s, i + 3, 1, d),
            }
        }
    }
}

proof fn lemma_unicode_digits_refused(s: Seq<char>, k: int, n: nat, v: u32)
    ensures
        spec_scan_unicode_digits(s, k, n, v, false).0 is Err,
    decreases s.len() - k,
{
    if 0 <= k < s.len() {
        if s[k] == '_' {
            lemma_unicode_digits_refused(s, k + 1, n, v);
        } else if s[k] != '}' {
            match hex_digit(s[k]) {
                None => {},
                Some(d) => {
                    if n + 1 > 6 {
                        lemma_unicode_digits_refused(s, k + 1, n + 1, v);
                    } else {
                        lemma_unicode_digits_refused(s, k + 1, n + 1, (v * 16 + d) as u32);
                    }
                },
            }
        }
    }
}

/// A step of a string literal moves forward and stays inside the literal.
proof fn lemma_str_step_next(s: Seq<char>, i: int, mode: Mode)
    requires
        0 <= i < s.len(),
    ensures
        i < spec_str_step(s, i, mode).1 <= s.len(),
{
    if s[i] == '\\' && i + 1 < s.len() && s[i + 1] == '\n' {
        lemma_space_run_end(s, i + 1);
    } else if s[i] == '\\' {
        lemma_scan_escape_end(s, i + 1, mode);
    }
}

/// One step of a string literal at position `i`: pushes its items onto
/// `out` and returns the position after it.
fn str_step(
    s: &Vec<char>,
    offs: &Vec<usize>,
    i: usize,
    mode: Mode,
    out: &mut Vec<(Range<usize>, Result<MixedUnit, EscapeError>)>,
) -> (next: usize)
    requires
        i < s.len(),
        offs.len() == s.len() + 1,
        forall|k: int| 0 <= k <= s.len() ==> #[trigger] offs@[k] == byte_offset(s@, k),
    ensures
        next == spec_str_step(s@, i as int, mode).1,
        i < next <= s.len(),
        final(out)@.map_values(|x: (Range<usize>, Result<MixedUnit, EscapeError>)| item_view(x))
            == old(out)@.map_values(|x: (Range<usize>, Result<MixedUnit, EscapeError>)| item_view(x))
            + spec_str_step(s@, i as int, mode).0,
{
    proof {
        lemma_str_step_next(s@, i as int, mode);
    }
    let ghost old_out = out@.map_values(
        |x: (Range<usize>, Result<MixedUnit, EscapeError>)| item_view(x),
    );
    let ghost step = spec_str_step(s@, i as int, mode);
    let c = s[i];
    let start = offs[i];
    if c == '\\' && i + 1 < s.len() && s[i + 1] == '\n' {
        // skip whitespaces if unescaped `\` is followed by an `\n`
        let mut q: usize = i + 1;
        let mut multiple = false;
        proof {
            lemma_space_run_end(s@, i + 1);
        }
        while q < s.len() && (s[q] == ' ' || s[q] == '\t' || s[q] == '\n' || s[q] == '\r')
            invariant
                i + 1 <= q <= s.len(),
                spec_space_run_end(s@, i + 1) == spec_space_run_end(s@, q as int),
                multiple == exists|k: int| i + 2 <= k < q && s@[k] == '\n',
            decreases s.len() - q,
        {
            if q >= i + 2 && s[q] == '\n' {
                multiple = true;
            }
            proof {
                if !multiple {
                    assert(forall|k: int| i + 2 <= k < q + 1 ==> s@[k] != '\n');
                } else {
                    assert(s@[q as int] == '\n' ==> i + 2 <= q < q + 1);
                }
            }
            q = q + 1;
        }
        proof {
            assert(spec_space_run_end(s@, q as int) == q);
            assert(step.1 == q);
            assert(step.0 == spec_skip_warnings(s@, i as int, q as int));
        }
        let ghost w1: Seq<SpecItem<MixedUnit>> = if multiple {
            seq![(start as int, offs@[q as int] as int, Err(EscapeError::MultipleSkippedLinesWarning))]
        } else {
            seq![]
        };
        if multiple {
            out.push(
                (Range { start: start, end: offs[q] }, Err(EscapeError::MultipleSkippedLinesWarning)),
            );
        }
        proof {
            assert(out@.map_values(
                |x: (Range<usize>, Result<MixedUnit, EscapeError>)| item_view(x),
            ) =~= old_out + w1);
        }
        let ghost mid = out@.map_values(
            |x: (Range<usize>, Result<MixedUnit, EscapeError>)| item_view(x),
        );
        let unskipped = q < s.len() && unicode_whitespace(s[q]);
        let ghost w2: Seq<SpecItem<MixedUnit>> = if unskipped {
            seq![(start as int, offs@[q + 1] as int, Err(EscapeError::UnskippedWhitespaceWarning))]
        } else {
            seq![]
        };
        if unskipped {
            out.push(
                (Range { start: start, end: offs[q + 1] }, Err(EscapeError::UnskippedWhitespaceWarning)),
            );
        }
        proof {
            assert(out@.map_values(
                |x: (Range<usize>, Result<MixedUnit, EscapeError>)| item_view(x),
            ) =~= mid + w2);
            assert(step.0 =~= w1 + w2);
            assert(old_out + w1 + w2 =~= old_out + (w1 + w2));
        }
        proof {
            assert(out@.map_values(
                |x: (Range<usize>, Result<MixedUnit, EscapeError>)| item_view(x),
            ) =~= old_out + step.0);
        }
        q
    } else {
        let (r, e) = scan_item(s, i, mode);
        let end = offs[e];
        out.push((Range { start: start, end: end }, r));
        proof {
            assert(out@.map_values(
                |x: (Range<usize>, Result<MixedUnit, EscapeError>)| item_view(x),
            ) =~= old_out + step.0);
        }
        e
    }
}

/// The outcome of the character at `i`, which is not a backslash that ends a line.
fn scan_item(s: &Vec<char>, i: usize, mode: Mode) -> (res: (Result<MixedUnit, EscapeError>, usize))
    requires
        i < s.len(),
        !(s@[i as int] == '\\' && i + 1 < s.len() && s@[i + 1] == '\n'),
    ensures
        spec_str_step(s@, i as int, mode) == (
            seq![(byte_offset(s@, i as int) as int, byte_offset(s@, res.1 as int) as int, res.0)],
            res.1 as int,
        ),
        i < res.1 <= s.len(),
{
    let c = s[i];
    if c == '\\' {
        proof {
            lemma_scan_escape_end(s@, i + 1, mode);
        }
        scan_escape(s, i + 1, mode)
    } else if c == '"' {
        (Err(EscapeError::EscapeOnlyChar), i + 1)
    } else if c == '\r' {
        (Err(EscapeError::BareCarriageReturn), i + 1)
    } else {
        (
            match ascii_check(c, mode.allow_unicode_chars()) {
                Ok(ch) => Ok(MixedUnit::Char(ch)),
                Err(er) => Err(er),
            },
            i + 1,
        )
    }
}

/// The units of a string literal, each with its byte range.
fn unescape_units(s: &Vec<char>, offs: &Vec<usize>, mode: Mode) -> (out: Vec<
    (Range<usize>, Result<MixedUnit, EscapeError>),
>)
    requires
        offs.len() == s.len() + 1,
        forall|k: int| 0 <= k <= s.len() ==> #[trigger] offs@[k] == byte_offset(s@, k),
    ensures
        out@.map_values(|x: (Range<usize>, Result<MixedUnit, EscapeError>)| item_view(x))
            == spec_unescape_str(s@, mode),
{
    let mut out: Vec<(Range<usize>, Result<MixedUnit, EscapeError>)> = Vec::new();
    let mut i: usize = 0;
    proof {
        assert(out@.map_values(|x: (Range<usize>, Result<MixedUnit, EscapeError>)| item_view(x))
            =~= Seq::<SpecItem<MixedUnit>>::empty());
    }
    while i < s.len()
        invariant
            i <= s.len(),
            offs.len() == s.len() + 1,
            forall|k: int| 0 <= k <= s.len() ==> #[trigger] offs@[k] == byte_offset(s@, k),
            out@.map_values(|x: (Range<usize>, Result<MixedUnit, EscapeError>)| item_view(x))
                + spec_str_from(s@, i as int, mode) == spec_str_from(s@, 0, mode),
        decreases s.len() - i,
    {
        let ghost old_out = out@.map_values(
            |x: (Range<usize>, Result<MixedUnit, EscapeError>)| item_view(x),
        );
        let ghost step = spec_str_step(s@, i as int, mode);
        let next = str_step(s, offs, i, mode, &mut out);
        proof {
            assert(spec_str_from(s@, i as int, mode) == step.0 + spec_str_from(s@, next as int, mode));
            assert(old_out + (step.0 + spec_str_from(s@, next as int, mode)) =~= (old_out + step.0)
                + spec_str_from(s@, next as int, mode));
        }
        i = next;
    }
    proof {
        let v = out@.map_values(|x: (Range<usize>, Result<MixedUnit, EscapeError>)| item_view(x));
        assert(spec_str_from(s@, i as int, mode) =~= Seq::<SpecItem<MixedUnit>>::empty());
        assert(v + Seq::<SpecItem<MixedUnit>>::empty() =~= v);
    }
    out
}

/// Takes the contents of a unicode only (non mixed utf-8) literal
/// without quotes and produces a sequence of escaped characters or errors,
/// each with the byte range of `src` it came from. For `Char` and `Byte`
/// modes the sequence has exactly one item.
pub fn unescape_unicode(src: &str, mode: Mode) -> (out: Vec<(Range<usize>, Result<char, EscapeError>)>)
    requires
        utf8_len(src@) <= usize::MAX,
        !(mode is CStr),
    ensures
        out@.map_values(|x: (Range<usize>, Result<char, EscapeError>)| item_view(x))
            == spec_unescape_unicode(src@, mode),
{
    let s = chars_of(src);
    let offs = byte_offsets(&s);
    let mut out: Vec<(Range<usize>, Result<char, EscapeError>)> = Vec::new();
    match mode {
        Mode::Char | Mode::Byte => {
            let (r, e) = unescape_char_or_byte(&s, mode);
            out.push((Range { start: 0, end: offs[e] }, r));
            proof {
                assert(out@.map_values(|x: (Range<usize>, Result<char, EscapeError>)| item_view(x))
                    =~= spec_unescape_unicode(src@, mode));
            }
        },
        _ => {
            let units = unescape_units(&s, &offs, mode);
            let ghost spec_units = spec_unescape_str(s@, mode);
            let mut k: usize = 0;
            while k < units.len()
                invariant
                    k <= units.len(),
                    units@.map_values(|x: (Range<usize>, Result<MixedUnit, EscapeError>)| item_view(x))
                        == spec_units,
                    out.len() == k,
                    forall|j: int| 0 <= j < k ==> #[trigger] item_view(out@[j]) == item_char(spec_units[j]),
                decreases units.len() - k,
            {
                let range = Range { start: units[k].0.start, end: units[k].0.end };
                let r = units[k].1;
                let rc = match r {
                    Ok(u) => Ok(char_of_unit(u)),
                    Err(er) => Err(er),
                };
                proof {
                    assert(spec_units[k as int] == item_view(units@[k as int]));
                }
                out.push((range, rc));
                k = k + 1;
            }
            proof {
                assert(out@.map_values(|x: (Range<usize>, Result<char, EscapeError>)| item_view(x))
                    =~= spec_unescape_unicode(src@, mode));
            }
        },
    }
    out
}

/// Takes the contents of a mixed utf-8 literal without quotes and produces
/// a sequence of escaped units or errors, each with the byte range of `src`
/// it came from. Only C string literals are mixed; for every other mode the
/// sequence is empty.
pub fn unescape_mixed(src: &str, mode: Mode) -> (out: Vec<(Range<usize>, Result<MixedUnit, EscapeError>)>)
    requires
        utf8_len(src@) <= usize::MAX,
    ensures
        out@.map_values(|x: (Range<usize>, Result<MixedUnit, EscapeError>)| item_view(x))
            == spec_unescape_mixed(src@, mode),
{
    let mut out: Vec<(Range<usize>, Result<MixedUnit, EscapeError>)> = Vec::new();
    if mode == Mode::CStr {
        let s = chars_of(src);
        let offs = byte_offsets(&s);
        let units = unescape_units(&s, &offs, mode);
        let ghost spec_units = spec_unescape_str(s@, mode);
        let mut k: usize = 0;
        while k < units.len()
            invariant
                k <= units.len(),
                units@.map_values(|x: (Range<usize>, Result<MixedUnit, EscapeError>)| item_view(x))
                    == spec_units,
                out.len() == k,
                forall|j: int| 0 <= j < k ==> #[trigger] item_view(out@[j]) == item_cstr(spec_units[j]),
            decreases units.len() - k,
        {
            let range = Range { start: units[k].0.start, end: units[k].0.end };
                let r = units[k].1;
            let rc = match r {
                Ok(MixedUnit::Char(c)) => if c == '\0' {
                    Err(EscapeError::NulInCStr)
                } else {
                    Ok(MixedUnit::Char(c))
                },
                other => other,
            };
            proof {
                assert(spec_units[k as int] == item_view(units@[k as int]));
            }
            out.push((range, rc));
            k = k + 1;
        }
        proof {
            assert(out@.map_values(|x: (Range<usize>, Result<MixedUnit, EscapeError>)| item_view(x))
                =~= spec_unescape_mixed(src@, mode));
        }
    } else {
        proof {
            assert(out@.map_values(|x: (Range<usize>, Result<MixedUnit, EscapeError>)| item_view(x))
                =~= spec_unescape_mixed(src@, mode));
        }
    }
    out
}

// ---------------------------------------------------------------------------
// Laws.
// ---------------------------------------------------------------------------

/// In `Char` and `Byte` modes exactly one item comes out: it covers the
/// first `k` bytes of the contents, where `k` is positive exactly when there
/// are contents, and it holds what `unescape_char` gives for them (in `Char`
/// mode) or what `unescape_byte` gives, as a character (in `Byte` mode).
pub proof fn lemma_char_and_byte_modes_give_one_item(s: Seq<char>, mode: Mode)
    requires
        mode is Char || mode is Byte,
    ensures
        spec_unescape_unicode(s, mode).len() == 1,
        spec_unescape_unicode(s, mode)[0].0 == 0,
        0 <= spec_unescape_unicode(s, mode)[0].1 <= utf8_len(s),
        spec_unescape_unicode(s, mode)[0].1 > 0 <==> s.len() > 0,
        mode is Char ==> spec_unescape_unicode(s, mode)[0].2 == spec_unescape_char(s),
        mode is Byte ==> match (spec_unescape_unicode(s, mode)[0].2, spec_unescape_byte(s)) {
            (Ok(c), Ok(b)) => c as u32 == b as u32,
            (Err(e1), Err(e2)) => e1 == e2,
            _ => false,
        },
{
    lemma_byte_mode_char_fits(s);
    let e = spec_char_or_byte(s, mode).1;
    if s.len() > 0 && s[0] == '\\' {
        lemma_scan_escape_end(s, 1, mode);
    }
    assert(0 <= e <= s.len());
    assert(s.len() > 0 ==> e >= 1);
    crate::text::lemma_byte_offset_bounded(s, e);
    if e > 0 {
        crate::text::lemma_byte_offset_strict(s, 0, e);
    }
    assert(s.take(0) =~= Seq::<char>::empty());
    if mode is Byte {
        match spec_char_or_byte(s, Mode::Byte).0 {
            Ok(c) => lemma_byte_of_char(c),
            Err(_) => {},
        }
    }
}

/// No character of `s` needs unescaping in a string literal.
pub open spec fn is_plain_text(s: Seq<char>) -> bool {
    forall|k: int| 0 <= k < s.len() ==> #[trigger] s[k] != '\\' && s[k] != '"' && s[k] != '\r'
}

/// The item that the plain character at `k` of `s` gives.
pub open spec fn plain_item(s: Seq<char>, k: int) -> SpecItem<char> {
    (byte_offset(s, k) as int, byte_offset(s, k + 1) as int, Ok(s[k]))
}

spec fn plain_unit_item(s: Seq<char>, k: int) -> SpecItem<MixedUnit> {
    (byte_offset(s, k) as int, byte_offset(s, k + 1) as int, Ok(MixedUnit::Char(s[k])))
}

proof fn lemma_plain_str_from(s: Seq<char>, i: int)
    requires
        is_plain_text(s),
        0 <= i <= s.len(),
    ensures
        spec_str_from(s, i, Mode::Str) == Seq::new((s.len() - i) as nat, |k: int| plain_unit_item(s, i + k)),
    decreases s.len() - i,
{
    let want = Seq::new((s.len() - i) as nat, |k: int| plain_unit_item(s, i + k));
    if i < s.len() {
        assert(s[i] != '\\' && s[i] != '"' && s[i] != '\r');
        lemma_plain_str_from(s, i + 1);
        assert(spec_str_step(s, i, Mode::Str).0 =~= seq![plain_unit_item(s, i)]);
        assert(spec_str_from(s, i, Mode::Str) =~= want);
    } else {
        assert(spec_str_from(s, i, Mode::Str) =~= want);
    }
}

/// A string literal with no backslash, double quote or carriage return
/// unescapes to its own characters, one item per character, each with the
/// byte range it occupies.
pub proof fn lemma_plain_text_unescapes_to_itself(s: Seq<char>)
    requires
        is_plain_text(s),
    ensures
        spec_unescape_unicode(s, Mode::Str) == Seq::new(s.len(), |k: int| plain_item(s, k)),
{
    lemma_plain_str_from(s, 0);
    assert(spec_unescape_unicode(s, Mode::Str) =~= Seq::new(s.len(), |k: int| plain_item(s, k)));
}

/// On ASCII contents without a `\u` escape, `unescape_byte` gives what
/// `unescape_char` gives, as a byte, unless `unescape_char` refuses a `\x`
/// escape above 0x7F (which a byte literal takes): the same error for the
/// same contents, or the same value.
pub proof fn lemma_byte_agrees_with_char_on_ascii(s: Seq<char>)
    requires
        forall|i: int| 0 <= i < s.len() ==> is_ascii_char(#[trigger] s[i]),
        forall|i: int| 0 <= i < s.len() - 1 && #[trigger] s[i] == '\\' ==> s[i + 1] != 'u',
        spec_unescape_char(s) != Err::<char, EscapeError>(EscapeError::OutOfRangeHexEscape),
    ensures
        match (spec_unescape_byte(s), spec_unescape_char(s)) {
            (Ok(b), Ok(c)) => b as u32 == c as u32,
            (Err(e1), Err(e2)) => e1 == e2,
            _ => false,
        },
{
    lemma_byte_mode_char_fits(s);
    if s.len() > 0 {
        assert(is_ascii_char(s[0]));
        if s[0] == '\\' && s.len() > 1 {
            assert(s[1] != 'u');
            if s[1] == 'x' {
                assert(spec_scan_escape(s, 1, Mode::Byte) == spec_scan_hex(s, 2, Mode::Byte));
            }
        }
    }
    match spec_char_or_byte(s, Mode::Byte).0 {
        Ok(c) => lemma_byte_of_char(c),
        Err(_) => {},
    }
}

/// The hexadecimal digit of `d` (below 16), in upper case if `upper`.
pub open spec fn hex_char(d: nat, upper: bool) -> char {
    if d < 10 {
        (('0' as u32) + d) as char
    } else if upper {
        (('A' as u32) + d - 10) as char
    } else {
        (('a' as u32) + d - 10) as char
    }
}

/// `v` in hexadecimal without leading zeros, as `{:x}` (or `{:X}` if
/// `upper`) writes it.
pub open spec fn hex_text(v: nat, upper: bool) -> Seq<char>
    decreases v,
{
    if v < 16 {
        seq![hex_char(v, upper)]
    } else {
        hex_text(v / 16, upper).push(hex_char(v % 16, upper))
    }
}

/// The value of a run of hexadecimal digits.
pub open spec fn hex_value(t: Seq<char>) -> nat
    decreases t.len(),
{
    if t.len() == 0 {
        0
    } else {
        hex_value(t.drop_last()) * 16 + match hex_digit(t.last()) {
            Some(d) => d as nat,
            None => 0,
        }
    }
}

proof fn lemma_hex_char(d: nat, upper: bool)
    requires
        d < 16,
    ensures
        hex_digit(hex_char(d, upper)) == Some(d as u32),
        hex_char(d, upper) != '_',
        hex_char(d, upper) != '}',
{
}

proof fn lemma_hex_text(v: nat, upper: bool)
    ensures
        hex_value(hex_text(v, upper)) == v,
        1 <= hex_text(v, upper).len(),
        v < 0x10 ==> hex_text(v, upper).len() <= 1,
        v < 0x100 ==> hex_text(v, upper).len() <= 2,
        v < 0x1000 ==> hex_text(v, upper).len() <= 3,
        v < 0x10000 ==> hex_text(v, upper).len() <= 4,
        v < 0x100000 ==> hex_text(v, upper).len() <= 5,
        v < 0x1000000 ==> hex_text(v, upper).len() <= 6,
        forall|i: int| 0 <= i < hex_text(v, upper).len() ==> (#[trigger] hex_digit(hex_text(v, upper)[i])) is Some
            && hex_text(v, upper)[i] != '_' && hex_text(v, upper)[i] != '}',
    decreases v,
{
    if v < 16 {
        lemma_hex_char(v, upper);
        let t = seq![hex_char(v, upper)];
        assert(t.drop_last() =~= Seq::<char>::empty());
        assert(hex_value(t.drop_last()) == 0);
        assert(hex_value(t) == hex_value(t.drop_last()) * 16 + v);
    } else {
        lemma_hex_text(v / 16, upper);
        lemma_hex_char(v % 16, upper);
        let t = hex_text(v, upper);
        assert(t.drop_last() =~= hex_text(v / 16, upper));
        assert(t.last() == hex_char(v % 16, upper));
        assert(hex_value(t) == hex_value(t.drop_last()) * 16 + v % 16);
        assert(v == (v / 16) * 16 + v % 16);
        assert(v < 0x1000000 ==> v / 16 < 0x100000);
        assert(v < 0x100000 ==> v / 16 < 0x10000);
        assert(v < 0x10000 ==> v / 16 < 0x1000);
        assert(v < 0x1000 ==> v / 16 < 0x100);
        assert(v < 0x100 ==> v / 16 < 0x10);
        assert forall|i: int| 0 <= i < t.len() implies (#[trigger] hex_digit(t[i])) is Some && t[i] != '_' && t[i] != '}' by {
            if i < t.len() - 1 {
                assert(t[i] == hex_text(v / 16, upper)[i]);
            }
        }
    }
}

proof fn lemma_hex_prefix_value(t: Seq<char>, j: int)
    requires
        0 <= j <= t.len(),
    ensures
        hex_value(t.take(j)) <= hex_value(t),
    decreases t.len() - j,
{
    if j < t.len() {
        lemma_hex_prefix_value(t, j + 1);
        assert(t.take(j + 1).drop_last() =~= t.take(j));
    } else {
        assert(t.take(j) =~= t);
    }
}

/// Scanning the digits `t` of a unicode escape, from position `k` on, goes
/// through them one by one, each step adding a digit to the value.
proof fn lemma_scan_digits(s: Seq<char>, k: int, t: Seq<char>, j: int, allow: bool)
    requires
        0 <= k,
        k + t.len() <= s.len(),
        s.subrange(k, k + t.len()) == t,
        t.len() <= 6,
        hex_value(t) <= u32::MAX,
        forall|i: int| 0 <= i < t.len() ==> (#[trigger] hex_digit(t[i])) is Some && t[i] != '_' && t[i] != '}',
        0 <= j <= t.len(),
    ensures
        spec_scan_unicode_digits(s, k, 0, 0, allow) == spec_scan_unicode_digits(s, k + j, j as nat, hex_value(t.take(j)) as u32, allow),
    decreases j,
{
    assert(t.take(0) =~= Seq::<char>::empty());
    if j > 0 {
        lemma_scan_digits(s, k, t, j - 1, allow);
        let c = s[k + j - 1];
        assert(c == t[j - 1]);
        assert(t.take(j).drop_last() =~= t.take(j - 1));
        lemma_hex_prefix_value(t, j);
        lemma_hex_prefix_value(t, j - 1);
    }
}

/// Every character comes back from the escape `\u{..}` of its code in
/// hexadecimal (upper or lower case, as `{:x}` and `{:X}` write it), and
/// from itself where it needs no escape; an ASCII character also comes
/// back from its `\x` escape with two lower-case digits.
pub proof fn lemma_unescape_char_round_trip(c: char, upper: bool)
    ensures
        spec_unescape_char(seq!['\\', 'u', '{'] + hex_text(c as u32 as nat, upper) + seq!['}']) == Ok::<char, EscapeError>(c),
        !(c == '\\' || c == '\n' || c == '\t' || c == '\r' || c == '\'') ==> spec_unescape_char(seq![c]) == Ok::<char, EscapeError>(c),
        (c as u32) < 0x80 ==> spec_unescape_char(
            seq!['\\', 'x', hex_char((c as u32 / 16) as nat, false), hex_char((c as u32 % 16) as nat, false)],
        ) == Ok::<char, EscapeError>(c),
{
    let v = c as u32 as nat;
    let t = hex_text(v, upper);
    lemma_hex_text(v, upper);
    let s = seq!['\\', 'u', '{'] + t + seq!['}'];
    let k = 3int;
    assert(s.subrange(k, k + t.len()) =~= t);
    assert(s[k + t.len()] == '}');
    assert(t.take(t.len() as int) =~= t);
    lemma_scan_digits(s, k, t, t.len() as int, true);
    assert(s[0] == '\\' && s[1] == 'u' && s[2] == '{');
    assert(s[3] == t[0]);
    lemma_hex_char(v % 16, upper);
    // the first digit read by `spec_scan_unicode` is the first step of the digits
    let d0 = hex_digit(t[0])->0;
    assert(spec_scan_unicode_digits(s, k, 0, 0, true) == spec_scan_unicode_digits(s, k + 1, 1, d0, true));
    assert(is_char_code(v));
    assert(spec_scan_unicode_digits(s, k + t.len(), t.len() as nat, v as u32, true) == (Ok::<char, EscapeError>((v as u32) as char), k + t.len() + 1));
    if (c as u32) < 0x80 {
        let hi = (c as u32 / 16) as nat;
        let lo = (c as u32 % 16) as nat;
        lemma_hex_char(hi, false);
        lemma_hex_char(lo, false);
        let x = seq!['\\', 'x', hex_char(hi, false), hex_char(lo, false)];
        assert(x[2] == hex_char(hi, false) && x[3] == hex_char(lo, false));
        assert((hi * 16 + lo) as u32 == c as u32);
    }
}

} // verus!
