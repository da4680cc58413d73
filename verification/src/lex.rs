//! The lexer: turns source text into tokens.
//!
//! The lexical grammar is stated by the spec functions of this module over
//! the characters of the source; `Cursor::advance_token` and `lex` are proved
//! to follow it, and every token carries the byte offset and byte length of
//! the text it was made from.

use std::collections::VecDeque;
use vstd::prelude::*;

use crate::str_ext::{is_boundary, pos_ok, spec_lines, spec_pos, Textwise};
use crate::text::{
    byte_offset, byte_offsets, chars_of, decimal, decimal_string, lemma_byte_offset_mono,
    lemma_byte_offset_step, repeat_char, utf8_len, char_utf8_len,
};

verus! {

/// The kind of a token.
#[derive(Debug, Clone, Copy, PartialEq, Eq, Structural)]
pub enum TokenKind {
    // keywords
    If,
    Do,
    Fn,
    Let,
    Nil,
    True,
    False,
    Print,
    Println,
    /// `then`; reserved for the parser, no input lexes to it.
    Then,
    /// `else`; reserved for the parser, no input lexes to it.
    Else,
    /// `==`; reserved for the parser, no input lexes to it.
    EqEq,
    // comment
    LineComment,
    /* comment */
    BlockComment { terminated: bool },
    /// #!/usr/bin/env ...
    Shebang,
    WhiteSpace,
    Newline,
    Ident,
    Literal { kind: LiteralKind },
    // Punctuation
    /// ";;"
    DoubleSemi,
    /// ";"
    Semi,
    /// ":"
    Colon,
    /// ","
    Comma,
    /// "."
    Dot,
    /// "("
    OpenParen,
    /// ")"
    CloseParen,
    /// "{"
    OpenBrace,
    /// "}"
    CloseBrace,
    /// "["
    OpenBracket,
    /// "]"
    CloseBracket,
    /// "@"
    At,
    /// "#"
    Pound,
    /// "?"
    Question,
    /// "$"
    Dollar,
    /// "="
    Equals,
    /// "=>"
    FatArrow,
    /// "!="
    NotEq,
    /// "!"
    Not,
    /// "~"
    BitNot,
    /// "<<"
    ShiftLeft,
    /// "<="
    LtEq,
    /// "<"
    Lt,
    /// ">>"
    ShiftRight,
    /// ">="
    GtEq,
    /// ">"
    Gt,
    /// "->"
    Arrow,
    /// "-"
    Minus,
    /// "and"
    And,
    /// "&"
    BitAnd,
    /// "or"
    Or,
    /// "|"
    BitOr,
    /// "+"
    Plus,
    /// "*"
    Mul,
    /// "/"
    Div,
    /// "xor"
    Xor,
    /// "^"
    Power,
    /// "%"
    Mod,
    /// Unknown token, not expected by the lexer.
    Unknown,
    /// End of input
    Eof,
}

/// The kind of a literal token.
#[derive(Clone, Copy, Debug, PartialEq, Eq, PartialOrd, Ord, Structural)]
pub enum LiteralKind {
    /// `12_u8`, `0o100`, `0b120i99`, `1f32`.
    Int { base: Base, empty_int: bool },
    /// `12.34f32`, `1e3`, but not `1f32`.
    Float { base: Base, empty_exponent: bool },
    /// `'a'`, `'\\'`, `'''`, `';`
    Char { terminated: bool },
    /// `"abc"`, `"abc`
    Str { terminated: bool },
}

/// The base of an integer literal.
#[derive(Clone, Copy, Debug, PartialEq, Eq, PartialOrd, Ord, Structural)]
pub enum Base {
    /// Literal starts with "0b"
    Binary,
    /// Literal starts with "0o"
    Octal,
    /// Literal doesn't contain a prefix.
    Decimal,
    /// Literal starts with "0x"
    Hexadecimal,
}

impl Base {
    /// The radix of this base.
    pub open spec fn spec_radix(self) -> u32 {
        match self {
            Base::Binary => 2,
            Base::Octal => 8,
            Base::Decimal => 10,
            Base::Hexadecimal => 16,
        }
    }

    /// The radix of this base: 2, 8, 10 or 16.
    pub fn radix(self) -> (r: u32)
        ensures
            r == self.spec_radix(),
    {
        match self {
            Base::Binary => 2,
            Base::Octal => 8,
            Base::Decimal => 10,
            Base::Hexadecimal => 16,
        }
    }
}

/// The character that `Cursor::first` and its kin return past the end.
pub(crate) const EOF_CHAR: char = '\0';

// ---------------------------------------------------------------------------
// Character classes.
// ---------------------------------------------------------------------------

/// Whitespace other than the newline, which is significant.
pub open spec fn spec_is_whitespace(c: char) -> bool {
    c == '\t' || c == '\u{000b}' || c == '\u{000c}' || c == '\r' || c == ' '
}

/// A valid first character of an identifier.
pub open spec fn spec_is_id_start(c: char) -> bool {
    c == '_' || ('a' <= c && c <= 'z') || ('A' <= c && c <= 'Z')
}

/// A valid non-first character of an identifier.
pub open spec fn spec_is_id_continue(c: char) -> bool {
    spec_is_id_start(c) || ('0' <= c && c <= '9')
}

/// A decimal digit.
pub open spec fn is_dec_digit(c: char) -> bool {
    '0' <= c && c <= '9'
}

/// A hexadecimal digit.
pub open spec fn is_hex_digit(c: char) -> bool {
    is_dec_digit(c) || ('a' <= c && c <= 'f') || ('A' <= c && c <= 'F')
}

/// Whether `string` is an identifier.
pub open spec fn spec_is_ident(s: Seq<char>) -> bool {
    s.len() > 0 && spec_is_id_start(s[0]) && forall|k: int| 1 <= k < s.len() ==> spec_is_id_continue(#[trigger] s[k])
}

/// returns true if `c` is considered a whitespace
pub fn is_whitespace(c: char) -> (b: bool)
    ensures
        b == spec_is_whitespace(c),
{
    c == '\u{0009}' || c == '\u{000b}' || c == '\u{000c}' || c == '\u{000d}' || c == '\u{0020}'
}

/// returns true if `c` is a newline
pub fn is_newline(c: char) -> (b: bool)
    ensures
        b == (c == '\n'),
{
    c == '\n'
}

/// returns true if `c` is a valid first char of an identifier.
pub fn is_id_start(c: char) -> (b: bool)
    ensures
        b == spec_is_id_start(c),
{
    (c == '_') || ('a' <= c && c <= 'z') || ('A' <= c && c <= 'Z')
}

/// returns true if `c` is valid as a non-first char of an ident
pub fn is_id_continue(c: char) -> (b: bool)
    ensures
        b == spec_is_id_continue(c),
{
    (c == '_') || ('a' <= c && c <= 'z') || ('A' <= c && c <= 'Z') || ('0' <= c && c <= '9')
}

/// returns true if `string` is an identifier
pub fn is_ident(string: &str) -> (b: bool)
    ensures
        b == spec_is_ident(string@),
{
    let s = chars_of(string);
    if s.len() == 0 {
        return false;
    }
    if !is_id_start(s[0]) {
        return false;
    }
    let mut k: usize = 1;
    while k < s.len()
        invariant
            1 <= k <= s.len(),
            s@ == string@,
            forall|m: int| 1 <= m < k ==> spec_is_id_continue(#[trigger] s@[m]),
        decreases s.len() - k,
    {
        if !is_id_continue(s[k]) {
            return false;
        }
        k = k + 1;
    }
    true
}

/// Given the first character of a word and the rest of it, return the
/// keyword that the word is, if it is one.
pub open spec fn spec_keyword(c: char, rest: Seq<char>) -> Option<TokenKind> {
    if c == 'i' && rest == seq!['f'] {
        Some(TokenKind::If)
    } else if c == 'f' && rest == seq!['n'] {
        Some(TokenKind::Fn)
    } else if c == 'n' && rest == seq!['i', 'l'] {
        Some(TokenKind::Nil)
    } else if c == 'l' && rest == seq!['e', 't'] {
        Some(TokenKind::Let)
    } else if c == 'd' && rest == seq!['o'] {
        Some(TokenKind::Do)
    } else if c == 'p' && rest == seq!['r', 'i', 'n', 't', 'l', 'n'] {
        Some(TokenKind::Println)
    } else if c == 'p' && rest == seq!['r', 'i', 'n', 't'] {
        Some(TokenKind::Print)
    } else if c == 't' && rest == seq!['r', 'u', 'e'] {
        Some(TokenKind::True)
    } else if c == 'f' && rest == seq!['a', 'l', 's', 'e'] {
        Some(TokenKind::False)
    } else {
        None
    }
}

/// Given any string slice, return the 'TokenKind' enum variant.
/// If the string slice does not contain a keyword, return `None`.
pub fn keyword(c: char, string: &str) -> (k: Option<TokenKind>)
    ensures
        k == spec_keyword(c, string@),
{
    let s = chars_of(string);
    let n = s.len();
    proof {
        let v = s@;
        if n == 1 {
            assert(v =~= seq![v[0]]);
        } else if n == 2 {
            assert(v =~= seq![v[0], v[1]]);
        } else if n == 3 {
            assert(v =~= seq![v[0], v[1], v[2]]);
        } else if n == 4 {
            assert(v =~= seq![v[0], v[1], v[2], v[3]]);
        } else if n == 6 {
            assert(v =~= seq![v[0], v[1], v[2], v[3], v[4], v[5]]);
        }
    }
    let r = if c == 'i' && n == 1 && s[0] == 'f' {
        Some(TokenKind::If)
    } else if c == 'f' && n == 1 && s[0] == 'n' {
        Some(TokenKind::Fn)
    } else if c == 'n' && n == 2 && s[0] == 'i' && s[1] == 'l' {
        Some(TokenKind::Nil)
    } else if c == 'l' && n == 2 && s[0] == 'e' && s[1] == 't' {
        Some(TokenKind::Let)
    } else if c == 'd' && n == 1 && s[0] == 'o' {
        Some(TokenKind::Do)
    } else if c == 'p' && n == 6 && s[0] == 'r' && s[1] == 'i' && s[2] == 'n' && s[3] == 't' && s[4]
        == 'l' && s[5] == 'n' {
        Some(TokenKind::Println)
    } else if c == 'p' && n == 4 && s[0] == 'r' && s[1] == 'i' && s[2] == 'n' && s[3] == 't' {
        Some(TokenKind::Print)
    } else if c == 't' && n == 3 && s[0] == 'r' && s[1] == 'u' && s[2] == 'e' {
        Some(TokenKind::True)
    } else if c == 'f' && n == 4 && s[0] == 'a' && s[1] == 'l' && s[2] == 's' && s[3] == 'e' {
        Some(TokenKind::False)
    } else {
        None
    };
    r
}

// ---------------------------------------------------------------------------
// The lexical grammar, over the characters `s` of the source and character
// positions in it. Each function returns the position just after what it reads.
// ---------------------------------------------------------------------------

/// The character at position `p`, or `EOF_CHAR` past the end.
pub open spec fn peek(s: Seq<char>, p: int) -> char {
    if 0 <= p < s.len() {
        s[p]
    } else {
        '\0'
    }
}

/// The classes of characters that the lexer eats in runs.
#[derive(Clone, Copy, PartialEq, Eq, Structural)]
pub enum CharClass {
    /// Anything but a newline.
    NotNewline,
    /// Whitespace other than the newline.
    Whitespace,
    /// The newline.
    Newline,
    /// The non-first characters of identifiers.
    IdContinue,
    /// Decimal digits and `_`.
    DecDigits,
    /// Hexadecimal digits and `_`.
    HexDigits,
}

/// Whether `c` belongs to the class `k`.
pub open spec fn in_class(k: CharClass, c: char) -> bool {
    match k {
        CharClass::NotNewline => c != '\n',
        CharClass::Whitespace => spec_is_whitespace(c),
        CharClass::Newline => c == '\n',
        CharClass::IdContinue => spec_is_id_continue(c),
        CharClass::DecDigits => c == '_' || is_dec_digit(c),
        CharClass::HexDigits => c == '_' || is_hex_digit(c),
    }
}

/// The end of the run of characters of class `k` that starts at `p`.
pub open spec fn run_end(s: Seq<char>, p: int, k: CharClass) -> int
    decreases s.len() - p,
{
    if 0 <= p < s.len() && in_class(k, s[p]) {
        run_end(s, p + 1, k)
    } else {
        p
    }
}

/// Whether some character in `[a, b)` is a digit (hexadecimal if `hex`).
pub open spec fn any_digit(s: Seq<char>, a: int, b: int, hex: bool) -> bool {
    exists|k: int|
        a <= k < b && (if hex {
            is_hex_digit(#[trigger] s[k])
        } else {
            is_dec_digit(s[k])
        })
}

/// Whether the characters from `p` on are those of `w`.
pub open spec fn matches_at(s: Seq<char>, p: int, w: Seq<char>) -> bool {
    0 <= p && p + w.len() <= s.len() && s.subrange(p, p + w.len()) == w
}

/// A block comment whose body starts at `q`, at nesting `depth`: the end and
/// the depth at the end (0 when it is terminated).
pub open spec fn block_comment_end(s: Seq<char>, q: int, depth: nat) -> (int, nat)
    decreases s.len() - q,
{
    if q < 0 || q >= s.len() {
        (q, depth)
    } else if s[q] == '/' && peek(s, q + 1) == '*' {
        block_comment_end(s, q + 2, depth + 1)
    } else if s[q] == '*' && peek(s, q + 1) == '/' {
        if depth <= 1 {
            (q + 2, 0)
        } else {
            block_comment_end(s, q + 2, (depth - 1) as nat)
        }
    } else {
        block_comment_end(s, q + 1, depth)
    }
}

/// An exponent from `p` on: an optional sign and decimal digits; the end
/// and whether a digit was met.
pub open spec fn float_exponent(s: Seq<char>, p: int) -> (int, bool) {
    let q = if peek(s, p) == '-' || peek(s, p) == '+' {
        p + 1
    } else {
        p
    };
    let e = run_end(s, q, CharClass::DecDigits);
    (e, any_digit(s, q, e, false))
}

/// What follows the digits of a number at `q`: a fraction, an exponent or nothing.
pub open spec fn number_tail(s: Seq<char>, q: int, base: Base) -> (LiteralKind, int) {
    let c = peek(s, q);
    if c == '.' && peek(s, q + 1) != '.' && !spec_is_id_start(peek(s, q + 1)) {
        let r = q + 1;
        if is_dec_digit(peek(s, r)) {
            let d = run_end(s, r, CharClass::DecDigits);
            if peek(s, d) == 'e' || peek(s, d) == 'E' {
                let (e, has) = float_exponent(s, d + 1);
                (LiteralKind::Float { base, empty_exponent: !has }, e)
            } else {
                (LiteralKind::Float { base, empty_exponent: false }, d)
            }
        } else {
            (LiteralKind::Float { base, empty_exponent: false }, r)
        }
    } else if c == 'e' || c == 'E' {
        let (e, has) = float_exponent(s, q + 1);
        (LiteralKind::Float { base, empty_exponent: !has }, e)
    } else {
        (LiteralKind::Int { base, empty_int: false }, q)
    }
}

/// A number whose first digit `first` stands just before `p`.
pub open spec fn spec_number(s: Seq<char>, p: int, first: char) -> (LiteralKind, int) {
    let c = peek(s, p);
    if first == '0' {
        if c == 'b' || c == 'o' {
            let base = if c == 'b' {
                Base::Binary
            } else {
                Base::Octal
            };
            let q = run_end(s, p + 1, CharClass::DecDigits);
            if !any_digit(s, p + 1, q, false) {
                (LiteralKind::Int { base, empty_int: true }, q)
            } else {
                number_tail(s, q, base)
            }
        } else if c == 'x' {
            let q = run_end(s, p + 1, CharClass::HexDigits);
            if !any_digit(s, p + 1, q, true) {
                (LiteralKind::Int { base: Base::Hexadecimal, empty_int: true }, q)
            } else {
                number_tail(s, q, Base::Hexadecimal)
            }
        } else if is_dec_digit(c) || c == '_' {
            number_tail(s, run_end(s, p, CharClass::DecDigits), Base::Decimal)
        } else if c == '.' || c == 'e' || c == 'E' {
            number_tail(s, p, Base::Decimal)
        } else {
            (LiteralKind::Int { base: Base::Decimal, empty_int: false }, p)
        }
    } else {
        number_tail(s, run_end(s, p, CharClass::DecDigits), Base::Decimal)
    }
}

/// The suffix of a literal at `q`: an identifier, if one starts there.
pub open spec fn suffix_end(s: Seq<char>, q: int) -> int {
    if spec_is_id_start(peek(s, q)) {
        run_end(s, q + 1, CharClass::IdContinue)
    } else {
        q
    }
}

/// The body of a single-quoted literal from `q` on (after its one-symbol
/// check): the end and whether the quote was closed.
pub open spec fn single_quoted_rest(s: Seq<char>, q: int) -> (int, bool)
    decreases s.len() - q,
{
    if q < 0 || q >= s.len() {
        (q, false)
    } else if s[q] == '\'' {
        (q + 1, true)
    } else if s[q] == '\n' && peek(s, q + 1) != '\'' {
        (q, false)
    } else if s[q] == '\\' {
        if q + 1 < s.len() {
            single_quoted_rest(s, q + 2)
        } else {
            (q + 1, false)
        }
    } else {
        single_quoted_rest(s, q + 1)
    }
}

/// A single-quoted literal whose body starts at `p`.
pub open spec fn single_quoted(s: Seq<char>, p: int) -> (int, bool) {
    if peek(s, p + 1) == '\'' && peek(s, p) != '\\' {
        (p + 2, true)
    } else {
        single_quoted_rest(s, p)
    }
}

/// A double-quoted literal whose body starts at `q`: the end and whether
/// the quote was closed.
pub open spec fn double_quoted(s: Seq<char>, q: int) -> (int, bool)
    decreases s.len() - q,
{
    if q < 0 || q >= s.len() {
        (q, false)
    } else if s[q] == '"' {
        (q + 1, true)
    } else if s[q] == '\\' && (peek(s, q + 1) == '\\' || peek(s, q + 1) == '"') {
        double_quoted(s, q + 2)
    } else {
        double_quoted(s, q + 1)
    }
}

/// A punctuation token that is a single character, or `None`.
pub open spec fn single_punct(c: char) -> Option<TokenKind> {
    if c == '~' {
        Some(TokenKind::BitNot)
    } else if c == '&' {
        Some(TokenKind::BitAnd)
    } else if c == '|' {
        Some(TokenKind::BitOr)
    } else if c == '+' {
        Some(TokenKind::Plus)
    } else if c == '*' {
        Some(TokenKind::Mul)
    } else if c == '^' {
        Some(TokenKind::Power)
    } else if c == '%' {
        Some(TokenKind::Mod)
    } else if c == ':' {
        Some(TokenKind::Colon)
    } else if c == '?' {
        Some(TokenKind::Question)
    } else if c == ',' {
        Some(TokenKind::Comma)
    } else if c == '.' {
        Some(TokenKind::Dot)
    } else if c == '(' {
        Some(TokenKind::OpenParen)
    } else if c == ')' {
        Some(TokenKind::CloseParen)
    } else if c == '{' {
        Some(TokenKind::OpenBrace)
    } else if c == '}' {
        Some(TokenKind::CloseBrace)
    } else if c == '[' {
        Some(TokenKind::OpenBracket)
    } else if c == ']' {
        Some(TokenKind::CloseBracket)
    } else if c == '@' {
        Some(TokenKind::At)
    } else if c == '$' {
        Some(TokenKind::Dollar)
    } else {
        None
    }
}

/// An operator that may take a second character: its kind and end, when
/// `c` at position `t` starts one.
pub open spec fn operator(s: Seq<char>, t: int, c: char) -> Option<(TokenKind, int)> {
    let p = t + 1;
    let n = peek(s, p);
    if c == '=' {
        Some(if n == '>' { (TokenKind::FatArrow, p + 1) } else { (TokenKind::Equals, p) })
    } else if c == '!' {
        Some(if n == '=' { (TokenKind::NotEq, p + 1) } else { (TokenKind::Not, p) })
    } else if c == '<' {
        Some(if n == '=' { (TokenKind::LtEq, p + 1) } else if n == '<' { (TokenKind::ShiftLeft, p + 1) } else { (TokenKind::Lt, p) })
    } else if c == '>' {
        Some(if n == '=' { (TokenKind::GtEq, p + 1) } else if n == '>' { (TokenKind::ShiftRight, p + 1) } else { (TokenKind::Gt, p) })
    } else if c == '-' {
        Some(if n == '>' { (TokenKind::Arrow, p + 1) } else { (TokenKind::Minus, p) })
    } else if c == ';' {
        Some(if n == ';' { (TokenKind::DoubleSemi, p + 1) } else { (TokenKind::Semi, p) })
    } else {
        None
    }
}

/// A word operator (`and`, `mod`, `not`, `or`, `xor`) that starts with `c`
/// at position `t`: its kind and end.
pub open spec fn word_operator(s: Seq<char>, t: int, c: char) -> Option<(TokenKind, int)> {
    let p = t + 1;
    if c == 'a' && matches_at(s, p, seq!['n', 'd']) {
        Some((TokenKind::And, p + 2))
    } else if c == 'm' && matches_at(s, p, seq!['o', 'd']) {
        Some((TokenKind::Mod, p + 2))
    } else if c == 'n' && matches_at(s, p, seq!['o', 't']) {
        Some((TokenKind::Not, p + 2))
    } else if c == 'o' && matches_at(s, p, seq!['r']) {
        Some((TokenKind::Or, p + 1))
    } else if c == 'x' && matches_at(s, p, seq!['o', 'r']) {
        Some((TokenKind::Xor, p + 2))
    } else {
        None
    }
}

/// The token that starts at position `t` (which holds a character): its
/// kind and the position after it.
pub open spec fn spec_scan(s: Seq<char>, t: int) -> (TokenKind, int) {
    let c = s[t];
    let p = t + 1;
    if c == '/' {
        if peek(s, p) == '*' {
            let (e, depth) = block_comment_end(s, p + 1, 1);
            (TokenKind::BlockComment { terminated: depth == 0 }, e)
        } else if peek(s, p) == '/' {
            (TokenKind::LineComment, run_end(s, p + 1, CharClass::NotNewline))
        } else {
            (TokenKind::Div, p)
        }
    } else if c == '#' {
        if peek(s, p) == '!' {
            (TokenKind::Shebang, run_end(s, p, CharClass::NotNewline))
        } else {
            (TokenKind::Pound, p)
        }
    } else if spec_is_whitespace(c) {
        (TokenKind::WhiteSpace, run_end(s, p, CharClass::Whitespace))
    } else if c == '\n' {
        (TokenKind::Newline, run_end(s, p, CharClass::Newline))
    } else if word_operator(s, t, c) is Some {
        word_operator(s, t, c)->0
    } else if spec_is_id_start(c) {
        let e = run_end(s, p, CharClass::IdContinue);
        match spec_keyword(c, s.subrange(p, e)) {
            Some(k) => (k, e),
            None => (TokenKind::Ident, e),
        }
    } else if is_dec_digit(c) {
        let (kind, q) = spec_number(s, p, c);
        (TokenKind::Literal { kind }, suffix_end(s, q))
    } else if operator(s, t, c) is Some {
        operator(s, t, c)->0
    } else if single_punct(c) is Some {
        (single_punct(c)->0, p)
    } else if c == '\'' {
        let (q, terminated) = single_quoted(s, p);
        (
            TokenKind::Literal { kind: LiteralKind::Char { terminated } },
            if terminated {
                suffix_end(s, q)
            } else {
                q
            },
        )
    } else if c == '"' {
        let (q, terminated) = double_quoted(s, p);
        (
            TokenKind::Literal { kind: LiteralKind::Str { terminated } },
            if terminated {
                suffix_end(s, q)
            } else {
                q
            },
        )
    } else {
        (TokenKind::Unknown, p)
    }
}

// ---------------------------------------------------------------------------
// Tokens and the cursor.
// ---------------------------------------------------------------------------

/// A token: its kind, and the byte offset and byte length of its text.
#[derive(Debug)]
pub struct Token {
    pub kind: TokenKind,
    offset: u32,
    len: u16,
}

/// A token read as plain values: its kind, byte offset and byte length.
pub struct TokenView {
    pub kind: TokenKind,
    pub offset: u32,
    pub len: u16,
}

impl View for Token {
    type V = TokenView;

    closed spec fn view(&self) -> TokenView {
        TokenView { kind: self.kind, offset: self.offset, len: self.len }
    }
}

impl Token {
    /// A token of kind `kind` at byte `offset` with byte length `len`.
    pub fn new(kind: TokenKind, offset: u32, len: u16) -> (t: Token)
        ensures
            t@ == (TokenView { kind, offset, len }),
    {
        Token { kind, offset, len }
    }

    /// The kind of this token.
    pub fn kind(&self) -> (k: TokenKind)
        ensures
            k == self@.kind,
    {
        self.kind
    }

    /// returns the offset into the file and the length of the token
    pub fn pos(&self) -> (r: (usize, usize))
        ensures
            r.0 == self@.offset,
            r.1 == self@.len,
    {
        (self.offset as usize, self.len as usize)
    }
}

/// The token made of the characters `[t, e)` of `s`: its offset is the byte
/// offset of `t` and its length the byte length of the text, each cut to the
/// width of its field.
pub open spec fn token_at(s: Seq<char>, t: int, e: int, kind: TokenKind) -> TokenView {
    TokenView {
        kind,
        offset: byte_offset(s, t) as u32,
        len: (byte_offset(s, e) - byte_offset(s, t)) as u16,
    }
}

/// Peekable iterator over a character sequence.
///
/// Next characters can be peeked via `first` method,
/// and position can be shifted forward via `bump` method.
pub struct Cursor<'src> {
    /// Bytes of the source before the current token.
    chars_consumed: usize,
    /// Bytes of the source from the start of the current token on.
    len_remaining: usize,
    errors: Errors<'src>,
    /// The characters of the source.
    chars: Vec<char>,
    /// The position of the next character.
    pos: usize,
    /// The position where the current token starts.
    token_start: usize,
    /// Bytes of the source from `pos` on.
    rest_len: usize,
    source: &'src str,
}

impl<'src> Cursor<'src> {
    /// The characters of the source.
    pub closed spec fn text(&self) -> Seq<char> {
        self.chars@
    }

    /// The position of the next character.
    pub closed spec fn position(&self) -> int {
        self.pos as int
    }

    /// The position where the current token starts.
    pub closed spec fn token_begin(&self) -> int {
        self.token_start as int
    }

    /// The source that the cursor reads.
    pub closed spec fn source_str(&self) -> &'src str {
        self.source
    }

    /// The cursor's fields agree with each other.
    pub closed spec fn wf(&self) -> bool {
        &&& self.chars@ == self.source@
        &&& utf8_len(self.chars@) <= usize::MAX
        &&& self.token_start <= self.pos <= self.chars.len()
        &&& self.chars_consumed == byte_offset(self.chars@, self.token_start as int)
        &&& self.len_remaining + self.chars_consumed == utf8_len(self.chars@)
        &&& self.rest_len + byte_offset(self.chars@, self.pos as int) == utf8_len(self.chars@)
    }

    /// `other` reads the same source from the same token start.
    pub closed spec fn same_token(&self, other: &Self) -> bool {
        &&& self.chars@ == other.chars@
        &&& self.source == other.source
        &&& self.token_start == other.token_start
        &&& self.chars_consumed == other.chars_consumed
        &&& self.len_remaining == other.len_remaining
        &&& self.errors == other.errors
    }

    /// Two cursors on the same token read the same source and text from the
    /// same token start.
    pub proof fn lemma_same_token(&self, other: &Self)
        requires
            self.same_token(other),
        ensures
            self.text() == other.text(),
            self.source_str() == other.source_str(),
            self.token_begin() == other.token_begin(),
    {
    }

    /// A cursor that hangs together reads its source, within the size of a
    /// `usize`, and its token start is at or before its position.
    pub proof fn lemma_wf(&self)
        requires
            self.wf(),
        ensures
            self.text() == self.source_str()@,
            0 <= self.token_begin() <= self.position() <= self.text().len(),
            utf8_len(self.text()) <= usize::MAX,
    {
    }

    /// A cursor at the start of `input`, the source of the file `file_name`.
    pub fn new(file_name: &'src str, input: &'src str) -> (c: Cursor<'src>)
        requires
            utf8_len(input@) <= usize::MAX,
        ensures
            c.wf(),
            c.text() == input@,
            c.source_str() == input,
            c.position() == 0,
            c.token_begin() == 0,
    {
        let chars = chars_of(input);
        let total = byte_offsets(&chars)[chars.len()];
        proof {
            assert(chars@.take(chars@.len() as int) =~= chars@);
            assert(chars@.take(0) =~= Seq::<char>::empty());
        }
        Cursor {
            chars_consumed: 0,
            len_remaining: total,
            errors: Errors::new(file_name, input),
            chars,
            pos: 0,
            token_start: 0,
            rest_len: total,
            source: input,
        }
    }

    /// The part of the source that is not consumed yet.
    pub fn as_str(&self) -> (r: &'src str)
        requires
            self.wf(),
        ensures
            r@ == self.text().skip(self.position()),
    {
        let r = self.source.substring_char(self.pos, self.chars.len());
        proof {
            assert(self.chars@.subrange(self.pos as int, self.chars.len() as int) =~= self.chars@.skip(
                self.pos as int,
            ));
        }
        r
    }

    /// Peeks the next symbol from the input stream without consuming it.
    /// If requested position doesn't exist, `EOF_CHAR` is returned.
    /// However, getting `EOF_CHAR` doesn't always mean actual end of file,
    /// it should be checked with `is_eof` method.
    pub fn first(&self) -> (c: char)
        requires
            self.wf(),
        ensures
            c == peek(self.text(), self.position()),
    {
        if self.pos < self.chars.len() {
            self.chars[self.pos]
        } else {
            EOF_CHAR
        }
    }

    /// Peeks the second symbol from the input stream without consuming it.
    pub(crate) fn second(&self) -> (c: char)
        requires
            self.wf(),
        ensures
            c == peek(self.text(), self.position() + 1),
    {
        if self.chars.len() - self.pos > 1 {
            self.chars[self.pos + 1]
        } else {
            EOF_CHAR
        }
    }

    /// Peeks the third symbol from the input stream without consuming it.
    pub fn third(&self) -> (c: char)
        requires
            self.wf(),
        ensures
            c == peek(self.text(), self.position() + 2),
    {
        if self.chars.len() - self.pos > 2 {
            self.chars[self.pos + 2]
        } else {
            EOF_CHAR
        }
    }

    /// Checks if there is nothing more to consume.
    pub fn is_eof(&self) -> (b: bool)
        requires
            self.wf(),
        ensures
            b == (self.position() >= self.text().len()),
    {
        self.pos >= self.chars.len()
    }

    /// The byte offset of the current token and the bytes consumed of it so far.
    fn token_pos(&self) -> (r: (usize, usize))
        requires
            self.wf(),
        ensures
            r.0 == byte_offset(self.text(), self.token_begin()),
            r.1 == byte_offset(self.text(), self.position()) - byte_offset(self.text(), self.token_begin()),
    {
        let start = self.chars_consumed;
        let len = self.pos_within_token();
        (start, len)
    }

    /// Returns amount of already consumed bytes of the current token.
    pub(crate) fn pos_within_token(&self) -> (n: usize)
        requires
            self.wf(),
        ensures
            n == byte_offset(self.text(), self.position()) - byte_offset(self.text(), self.token_begin()),
    {
        proof {
            lemma_byte_offset_mono(self.chars@, self.token_start as int, self.pos as int);
        }
        self.len_remaining - self.rest_len
    }

    /// Starts a new token at the current position.
    pub(crate) fn reset_pos_within_token(&mut self)
        requires
            old(self).wf(),
        ensures
            final(self).wf(),
            final(self).text() == old(self).text(),
            final(self).source_str() == old(self).source_str(),
            final(self).position() == old(self).position(),
            final(self).token_begin() == old(self).position(),
    {
        proof {
            lemma_byte_offset_mono(self.chars@, self.token_start as int, self.pos as int);
        }
        self.chars_consumed = self.chars_consumed + self.pos_within_token();
        self.len_remaining = self.rest_len;
        self.token_start = self.pos;
    }

    /// Consumes the next character, if there is one, and returns it.
    pub(crate) fn bump(&mut self) -> (c: Option<char>)
        requires
            old(self).wf(),
        ensures
            final(self).wf(),
            final(self).same_token(old(self)),
            old(self).position() < old(self).text().len() ==> c == Some(old(self).text()[old(self).position()])
                && final(self).position() == old(self).position() + 1,
            old(self).position() >= old(self).text().len() ==> c is None && final(self).position()
                == old(self).position(),
    {
        if self.pos < self.chars.len() {
            let c = self.chars[self.pos];
            proof {
                lemma_byte_offset_step(self.chars@, self.pos as int);
                lemma_byte_offset_mono(self.chars@, self.pos + 1, self.chars.len() as int);
            }
            self.rest_len = self.rest_len - char_utf8_len(c);
            self.pos = self.pos + 1;
            Some(c)
        } else {
            None
        }
    }

    /// If the next N chars match `chars`, consume them and return true.
    /// If at any point, a char does not match `chars`, return false without eating the chars.
    pub fn matches<const N: usize>(&mut self, chars: [char; N]) -> (b: bool)
        requires
            old(self).wf(),
        ensures
            final(self).wf(),
            final(self).same_token(old(self)),
            final(self).text() == old(self).text(),
            final(self).source_str() == old(self).source_str(),
            final(self).token_begin() == old(self).token_begin(),
            b == matches_at(old(self).text(), old(self).position(), chars@),
            b ==> final(self).position() == old(self).position() + N,
            !b ==> final(self).position() == old(self).position(),
    {
        let ghost s = self.chars@;
        let ghost p = self.pos as int;
        if N > self.chars.len() - self.pos {
            return false;
        }
        let mut k: usize = 0;
        while k < N
            invariant
                k <= N,
                N == chars@.len(),
                p + N <= s.len(),
                self.wf(),
                s == self.chars@,
                p == self.pos,
                forall|m: int| 0 <= m < k ==> s[p + m] == chars@[m],
            decreases N - k,
        {
            if chars[k] != self.chars[self.pos + k] {
                proof {
                    assert(s.subrange(p, p + N)[k as int] != chars@[k as int]);
                }
                return false;
            }
            k = k + 1;
        }
        proof {
            assert(s.subrange(p, p + N) =~= chars@);
        }
        let ghost start = *self;
        let mut j: usize = 0;
        while j < N
            invariant
                j <= N,
                p + N <= s.len(),
                self.wf(),
                self.same_token(&start),
                s == self.chars@,
                self.pos == p + j,
            decreases N - j,
        {
            self.bump();
            j = j + 1;
        }
        true
    }
}

/// Whether `c` belongs to the class `k`.
fn in_class_exec(k: CharClass, c: char) -> (b: bool)
    ensures
        b == in_class(k, c),
{
    match k {
        CharClass::NotNewline => c != '\n',
        CharClass::Whitespace => is_whitespace(c),
        CharClass::Newline => c == '\n',
        CharClass::IdContinue => is_id_continue(c),
        CharClass::DecDigits => c == '_' || ('0' <= c && c <= '9'),
        CharClass::HexDigits => c == '_' || ('0' <= c && c <= '9') || ('a' <= c && c <= 'f') || ('A'
            <= c && c <= 'F'),
    }
}

proof fn lemma_run_end_bounds(s: Seq<char>, p: int, k: CharClass)
    requires
        0 <= p <= s.len(),
    ensures
        p <= run_end(s, p, k) <= s.len(),
        forall|m: int| p <= m < run_end(s, p, k) ==> in_class(k, #[trigger] s[m]),
        run_end(s, p, k) == s.len() || !in_class(k, s[run_end(s, p, k)]),
    decreases s.len() - p,
{
    if p < s.len() && in_class(k, s[p]) {
        lemma_run_end_bounds(s, p + 1, k);
    }
}

impl<'src> Cursor<'src> {
    /// Eats symbols of class `class` until one is not or the end is reached.
    pub(crate) fn eat_while(&mut self, class: CharClass)
        requires
            old(self).wf(),
        ensures
            final(self).wf(),
            final(self).same_token(old(self)),
            final(self).position() == run_end(old(self).text(), old(self).position(), class),
    {
        let ghost s = self.chars@;
        let ghost p0 = self.pos as int;
        let ghost start = *self;
        while in_class_exec(class, self.first()) && !self.is_eof()
            invariant
                self.wf(),
                self.same_token(&start),
                s == self.chars@,
                p0 <= self.pos,
                run_end(s, p0, class) == run_end(s, self.pos as int, class),
            decreases s.len() - self.pos,
        {
            self.bump();
        }
    }

    /// Eats decimal digits and underscores; returns whether a digit was met.
    fn eat_decimal_digits(&mut self) -> (has_digits: bool)
        requires
            old(self).wf(),
        ensures
            final(self).wf(),
            final(self).same_token(old(self)),
            final(self).position() == run_end(old(self).text(), old(self).position(), CharClass::DecDigits),
            has_digits == any_digit(old(self).text(), old(self).position(), final(self).position(), false),
    {
        let ghost s = self.chars@;
        let ghost p0 = self.pos as int;
        let ghost start = *self;
        let mut has_digits = false;
        loop
            invariant
                self.wf(),
                self.same_token(&start),
                s == self.chars@,
                p0 <= self.pos,
                run_end(s, p0, CharClass::DecDigits) == run_end(s, self.pos as int, CharClass::DecDigits),
                has_digits == any_digit(s, p0, self.pos as int, false),
            ensures
                self.wf(),
                self.same_token(&start),
                s == self.chars@,
                self.pos == run_end(s, p0, CharClass::DecDigits),
                has_digits == any_digit(s, p0, self.pos as int, false),
            decreases s.len() - self.pos,
        {
            let c = self.first();
            if c == '_' && !self.is_eof() {
                self.bump();
                proof {
                    assert(forall|k: int| p0 <= k < self.pos && is_dec_digit(s[k]) ==> k < self.pos - 1);
                }
            } else if '0' <= c && c <= '9' {
                has_digits = true;
                self.bump();
            } else {
                break;
            }
        }
        has_digits
    }

    /// Eats hexadecimal digits and underscores; returns whether a digit was met.
    fn eat_hexadecimal_digits(&mut self) -> (has_digits: bool)
        requires
            old(self).wf(),
        ensures
            final(self).wf(),
            final(self).same_token(old(self)),
            final(self).position() == run_end(old(self).text(), old(self).position(), CharClass::HexDigits),
            has_digits == any_digit(old(self).text(), old(self).position(), final(self).position(), true),
    {
        let ghost s = self.chars@;
        let ghost p0 = self.pos as int;
        let ghost start = *self;
        let mut has_digits = false;
        loop
            invariant
                self.wf(),
                self.same_token(&start),
                s == self.chars@,
                p0 <= self.pos,
                run_end(s, p0, CharClass::HexDigits) == run_end(s, self.pos as int, CharClass::HexDigits),
                has_digits == any_digit(s, p0, self.pos as int, true),
            ensures
                self.wf(),
                self.same_token(&start),
                s == self.chars@,
                self.pos == run_end(s, p0, CharClass::HexDigits),
                has_digits == any_digit(s, p0, self.pos as int, true),
            decreases s.len() - self.pos,
        {
            let c = self.first();
            if c == '_' && !self.is_eof() {
                self.bump();
                proof {
                    assert(forall|k: int| p0 <= k < self.pos && is_hex_digit(s[k]) ==> k < self.pos - 1);
                }
            } else if ('0' <= c && c <= '9') || ('a' <= c && c <= 'f') || ('A' <= c && c <= 'F') {
                has_digits = true;
                self.bump();
            } else {
                break;
            }
        }
        has_digits
    }
}

impl<'src> Cursor<'src> {
    /// Eats the float exponent; returns true if at least one digit was met.
    fn eat_float_exponent(&mut self) -> (has_digits: bool)
        requires
            old(self).wf(),
        ensures
            final(self).wf(),
            final(self).same_token(old(self)),
            (final(self).position(), has_digits) == float_exponent(old(self).text(), old(self).position()),
    {
        if self.first() == '-' || self.first() == '+' {
            self.bump();
        }
        self.eat_decimal_digits()
    }

    /// Eats the suffix of a literal (`u8`, `_f64`, ...).
    fn eat_literal_suffix(&mut self)
        requires
            old(self).wf(),
        ensures
            final(self).wf(),
            final(self).same_token(old(self)),
            final(self).position() == suffix_end(old(self).text(), old(self).position()),
    {
        self.eat_identifier();
    }

    /// Eats an identifier. Note: succeeds on `_`, which isn't a valid identifier.
    fn eat_identifier(&mut self)
        requires
            old(self).wf(),
        ensures
            final(self).wf(),
            final(self).same_token(old(self)),
            final(self).position() == suffix_end(old(self).text(), old(self).position()),
    {
        if !is_id_start(self.first()) {
            return;
        }
        self.bump();
        self.eat_while(CharClass::IdContinue);
    }

    /// Eats a line comment; the first `/` is eaten and the second is next.
    fn line_comment(&mut self) -> (k: TokenKind)
        requires
            old(self).wf(),
            old(self).position() < old(self).text().len(),
        ensures
            final(self).wf(),
            final(self).same_token(old(self)),
            final(self).position() == run_end(old(self).text(), old(self).position() + 1, CharClass::NotNewline),
            k == TokenKind::LineComment,
    {
        self.bump();
        self.eat_while(CharClass::NotNewline);
        TokenKind::LineComment
    }

    /// Eats a block comment, nested ones included; the `/` is eaten and the `*` is next.
    fn block_comment(&mut self) -> (k: TokenKind)
        requires
            old(self).wf(),
            old(self).position() < old(self).text().len(),
        ensures
            final(self).wf(),
            final(self).same_token(old(self)),
            ({
                let (e, depth) = block_comment_end(old(self).text(), old(self).position() + 1, 1);
                final(self).position() == e && k == TokenKind::BlockComment { terminated: depth == 0 }
            }),
    {
        let ghost s = self.chars@;
        let ghost start = *self;
        self.bump();
        let mut depth: usize = 1;
        let ghost target = block_comment_end(s, self.pos as int, 1);
        loop
            invariant_except_break
                1 <= depth <= self.pos,
                target == block_comment_end(s, self.pos as int, depth as nat),
            invariant
                self.wf(),
                self.same_token(&start),
                s == self.chars@,
            ensures
                self.wf(),
                self.same_token(&start),
                s == self.chars@,
                target == (self.pos as int, depth as nat),
            decreases s.len() - self.pos,
        {
            let c = match self.bump() {
                Some(c) => c,
                None => break,
            };
            if c == '/' && self.first() == '*' {
                self.bump();
                depth = depth + 1;
            } else if c == '*' && self.first() == '/' {
                self.bump();
                depth = depth - 1;
                if depth == 0 {
                    break;
                }
            }
        }
        TokenKind::BlockComment { terminated: depth == 0 }
    }

    /// Eats the rest of an identifier whose first character `chr` is eaten,
    /// and returns the keyword that the word is, if it is one.
    pub(crate) fn eat_while_and_yield_keyword(&mut self, chr: char) -> (k: Option<TokenKind>)
        requires
            old(self).wf(),
        ensures
            final(self).wf(),
            final(self).same_token(old(self)),
            final(self).position() == run_end(old(self).text(), old(self).position(), CharClass::IdContinue),
            k == spec_keyword(chr, old(self).text().subrange(old(self).position(), final(self).position())),
    {
        let ghost s = self.chars@;
        let ghost p0 = self.pos as int;
        let mut count: usize = 0;
        proof {
            lemma_run_end_bounds(s, p0, CharClass::IdContinue);
        }
        while self.pos + count < self.chars.len() && is_id_continue(self.chars[self.pos + count])
            invariant
                self.wf(),
                s == self.chars@,
                p0 == self.pos,
                p0 + count <= s.len(),
                run_end(s, p0, CharClass::IdContinue) == run_end(s, p0 + count, CharClass::IdContinue),
            decreases s.len() - self.pos - count,
        {
            count = count + 1;
        }
        let kword = self.source.substring_char(self.pos, self.pos + count);
        let ghost start = *self;
        let mut j: usize = 0;
        while j < count
            invariant
                j <= count,
                p0 + count <= s.len(),
                self.wf(),
                self.same_token(&start),
                s == self.chars@,
                self.pos == p0 + j,
            decreases count - j,
        {
            self.bump();
            j = j + 1;
        }
        keyword(chr, kword)
    }

    /// Eats an identifier or keyword whose first character `chr` is eaten.
    fn ident_or_unknown_prefix(&mut self, chr: char) -> (k: TokenKind)
        requires
            old(self).wf(),
        ensures
            final(self).wf(),
            final(self).same_token(old(self)),
            final(self).position() == run_end(old(self).text(), old(self).position(), CharClass::IdContinue),
            k == match spec_keyword(chr, old(self).text().subrange(old(self).position(), final(self).position())) {
                Some(kw) => kw,
                None => TokenKind::Ident,
            },
    {
        // start is already eaten, eat the rest of the identifier.
        let keyword = self.eat_while_and_yield_keyword(chr);
        if let Some(k) = keyword {
            return k;
        }
        TokenKind::Ident
    }

    fn whitespace(&mut self) -> (k: TokenKind)
        requires
            old(self).wf(),
        ensures
            final(self).wf(),
            final(self).same_token(old(self)),
            final(self).position() == run_end(old(self).text(), old(self).position(), CharClass::Whitespace),
            k == TokenKind::WhiteSpace,
    {
        self.eat_while(CharClass::Whitespace);
        TokenKind::WhiteSpace
    }

    fn newline(&mut self) -> (k: TokenKind)
        requires
            old(self).wf(),
        ensures
            final(self).wf(),
            final(self).same_token(old(self)),
            final(self).position() == run_end(old(self).text(), old(self).position(), CharClass::Newline),
            k == TokenKind::Newline,
    {
        self.eat_while(CharClass::Newline);
        TokenKind::Newline
    }

    /// Eats a shebang line; the `#` is eaten.
    fn shebang(&mut self) -> (k: TokenKind)
        requires
            old(self).wf(),
        ensures
            final(self).wf(),
            final(self).same_token(old(self)),
            final(self).position() == run_end(old(self).text(), old(self).position(), CharClass::NotNewline),
            k == TokenKind::Shebang,
    {
        self.eat_while(CharClass::NotNewline);
        TokenKind::Shebang
    }
}

impl<'src> Cursor<'src> {
    /// Eats what follows the digits of a number: a fraction, an exponent or nothing.
    fn number_tail(&mut self, base: Base) -> (kind: LiteralKind)
        requires
            old(self).wf(),
        ensures
            final(self).wf(),
            final(self).same_token(old(self)),
            (kind, final(self).position()) == number_tail(old(self).text(), old(self).position(), base),
    {
        match self.first() {
            '.' if self.second() != '.' && !is_id_start(self.second()) => {
                // might have stuff after the . and if it does, it needs to start with a number.
                self.bump();
                let mut empty_exponent = false;
                if '0' <= self.first() && self.first() <= '9' {
                    self.eat_decimal_digits();
                    match self.first() {
                        'e' | 'E' => {
                            self.bump();
                            empty_exponent = !self.eat_float_exponent();
                        },
                        _ => (),
                    }
                }
                LiteralKind::Float { base, empty_exponent }
            },
            'e' | 'E' => {
                self.bump();
                let empty_exponent = !self.eat_float_exponent();
                LiteralKind::Float { base, empty_exponent }
            },
            _ => LiteralKind::Int { base, empty_int: false },
        }
    }

    /// Eats a number whose first digit `first_digit` is eaten.
    fn number(&mut self, first_digit: char) -> (kind: LiteralKind)
        requires
            old(self).wf(),
        ensures
            final(self).wf(),
            final(self).same_token(old(self)),
            (kind, final(self).position()) == spec_number(old(self).text(), old(self).position(), first_digit),
    {
        if first_digit == '0' {
            // attempt to parse encoding base.
            match self.first() {
                'b' => {
                    self.bump();
                    if !self.eat_decimal_digits() {
                        return LiteralKind::Int { base: Base::Binary, empty_int: true };
                    }
                    self.number_tail(Base::Binary)
                },
                'o' => {
                    self.bump();
                    if !self.eat_decimal_digits() {
                        return LiteralKind::Int { base: Base::Octal, empty_int: true };
                    }
                    self.number_tail(Base::Octal)
                },
                'x' => {
                    self.bump();
                    if !self.eat_hexadecimal_digits() {
                        return LiteralKind::Int { base: Base::Hexadecimal, empty_int: true };
                    }
                    self.number_tail(Base::Hexadecimal)
                },
                // not a base prefix, eat additional digits.
                '0'..='9' | '_' => {
                    self.eat_decimal_digits();
                    self.number_tail(Base::Decimal)
                },
                // also not a base prefix, nothing more to do
                '.' | 'e' | 'E' => self.number_tail(Base::Decimal),
                // just a zero
                _ => LiteralKind::Int { base: Base::Decimal, empty_int: false },
            }
        } else {
            // no base prefix, just eat the digits
            self.eat_decimal_digits();
            self.number_tail(Base::Decimal)
        }
    }

    /// Eats the rest of a single-quoted literal whose opening quote is eaten;
    /// returns whether the quote was closed.
    fn single_quoted_string(&mut self) -> (terminated: bool)
        requires
            old(self).wf(),
        ensures
            final(self).wf(),
            final(self).same_token(old(self)),
            (final(self).position(), terminated) == single_quoted(old(self).text(), old(self).position()),
    {
        // check if it's a one-symbol literal
        if self.second() == '\'' && self.first() != '\\' {
            self.bump();
            self.bump();
            return true;
        }
        let ghost s = self.chars@;
        let ghost start = *self;
        let ghost target = single_quoted_rest(s, self.pos as int);
        // parse until either quotes are terminated or error is detected.
        loop
            invariant
                self.wf(),
                self.same_token(&start),
                s == self.chars@,
                target == single_quoted_rest(s, self.pos as int),
                start.same_token(old(self)),
                target == single_quoted(old(self).text(), old(self).position()),
            ensures
                self.wf(),
                self.same_token(&start),
                start.same_token(old(self)),
                target == (self.pos as int, false),
                target == single_quoted(old(self).text(), old(self).position()),
            decreases s.len() - self.pos,
        {
            let c = self.first();
            if c == '\'' {
                // quotes are terminated, finish parsing
                self.bump();
                return true;
            } else if c == '\n' && self.second() != '\'' {
                // newline without following '\'' means an unclosed quote, stop parsing.
                break;
            } else if c == EOF_CHAR && self.is_eof() {
                // end of file, stop parsing
                break;
            } else if c == '\\' {
                // escaped slash is considered one char, bump twice.
                self.bump();
                self.bump();
            } else {
                // skip the char
                self.bump();
            }
        }
        // string was not terminated
        false
    }

    /// Eats the rest of a double-quoted literal whose opening quote is eaten;
    /// returns whether the quote was closed.
    fn double_quoted_string(&mut self) -> (terminated: bool)
        requires
            old(self).wf(),
        ensures
            final(self).wf(),
            final(self).same_token(old(self)),
            (final(self).position(), terminated) == double_quoted(old(self).text(), old(self).position()),
    {
        let ghost s = self.chars@;
        let ghost start = *self;
        let ghost target = double_quoted(s, self.pos as int);
        loop
            invariant
                self.wf(),
                self.same_token(&start),
                s == self.chars@,
                target == double_quoted(s, self.pos as int),
                start.same_token(old(self)),
                target == double_quoted(old(self).text(), old(self).position()),
            ensures
                self.wf(),
                self.same_token(&start),
                start.same_token(old(self)),
                target == (self.pos as int, false),
                target == double_quoted(old(self).text(), old(self).position()),
            decreases s.len() - self.pos,
        {
            let c = match self.bump() {
                Some(c) => c,
                None => break,
            };
            if c == '"' {
                return true;
            } else if c == '\\' && (self.first() == '\\' || self.first() == '"') {
                // bump again to skip escaped char
                self.bump();
            }
        }
        // eof reached.
        false
    }

    /// Eats a greater than, greater than or equal to, or shift right operator.
    fn gt(&mut self) -> (k: TokenKind)
        requires
            old(self).wf(),
        ensures
            final(self).wf(),
            final(self).same_token(old(self)),
            operator(old(self).text(), old(self).position() - 1, '>') == Some((k, final(self).position())),
    {
        match self.first() {
            '=' => {
                self.bump();
                TokenKind::GtEq
            },
            '>' => {
                self.bump();
                TokenKind::ShiftRight
            },
            _ => TokenKind::Gt,
        }
    }

    /// Eats a less than, less than or equal to, or shift left operator.
    fn lt(&mut self) -> (k: TokenKind)
        requires
            old(self).wf(),
        ensures
            final(self).wf(),
            final(self).same_token(old(self)),
            operator(old(self).text(), old(self).position() - 1, '<') == Some((k, final(self).position())),
    {
        match self.first() {
            '=' => {
                self.bump();
                TokenKind::LtEq
            },
            '<' => {
                self.bump();
                TokenKind::ShiftLeft
            },
            _ => TokenKind::Lt,
        }
    }

    /// Eats a boolean not or not equal operator.
    fn not(&mut self) -> (k: TokenKind)
        requires
            old(self).wf(),
        ensures
            final(self).wf(),
            final(self).same_token(old(self)),
            operator(old(self).text(), old(self).position() - 1, '!') == Some((k, final(self).position())),
    {
        match self.first() {
            '=' => {
                self.bump();
                TokenKind::NotEq
            },
            _ => TokenKind::Not,
        }
    }

    /// Eats a semicolon or a double semicolon.
    fn semi(&mut self) -> (k: TokenKind)
        requires
            old(self).wf(),
        ensures
            final(self).wf(),
            final(self).same_token(old(self)),
            operator(old(self).text(), old(self).position() - 1, ';') == Some((k, final(self).position())),
    {
        match self.first() {
            ';' => {
                self.bump();
                TokenKind::DoubleSemi
            },
            _ => TokenKind::Semi,
        }
    }
}

// ---------------------------------------------------------------------------
// Progress: every token takes at least one character and stays in the source.
// ---------------------------------------------------------------------------

proof fn lemma_block_comment_end_bounds(s: Seq<char>, q: int, depth: nat)
    requires
        0 <= q <= s.len(),
    ensures
        q <= block_comment_end(s, q, depth).0 <= s.len(),
    decreases s.len() - q,
{
    if q < s.len() {
        if s[q] == '/' && peek(s, q + 1) == '*' {
            lemma_block_comment_end_bounds(s, q + 2, depth + 1);
        } else if s[q] == '*' && peek(s, q + 1) == '/' {
            if depth > 1 {
                lemma_block_comment_end_bounds(s, q + 2, (depth - 1) as nat);
            }
        } else {
            lemma_block_comment_end_bounds(s, q + 1, depth);
        }
    }
}

proof fn lemma_float_exponent_bounds(s: Seq<char>, p: int)
    requires
        0 <= p <= s.len(),
    ensures
        p <= float_exponent(s, p).0 <= s.len(),
{
    let q = if peek(s, p) == '-' || peek(s, p) == '+' {
        p + 1
    } else {
        p
    };
    lemma_run_end_bounds(s, q, CharClass::DecDigits);
}

proof fn lemma_number_tail_bounds(s: Seq<char>, q: int, base: Base)
    requires
        0 <= q <= s.len(),
    ensures
        q <= number_tail(s, q, base).1 <= s.len(),
{
    let c = peek(s, q);
    if c == '.' && peek(s, q + 1) != '.' && !spec_is_id_start(peek(s, q + 1)) {
        let r = q + 1;
        if is_dec_digit(peek(s, r)) {
            lemma_run_end_bounds(s, r, CharClass::DecDigits);
            let d = run_end(s, r, CharClass::DecDigits);
            if peek(s, d) == 'e' || peek(s, d) == 'E' {
                lemma_float_exponent_bounds(s, d + 1);
            }
        }
    } else if c == 'e' || c == 'E' {
        lemma_float_exponent_bounds(s, q + 1);
    }
}

proof fn lemma_number_bounds(s: Seq<char>, p: int, first: char)
    requires
        0 <= p <= s.len(),
    ensures
        p <= spec_number(s, p, first).1 <= s.len(),
{
    let c = peek(s, p);
    if first == '0' {
        if c == 'b' || c == 'o' {
            lemma_run_end_bounds(s, p + 1, CharClass::DecDigits);
            lemma_number_tail_bounds(s, run_end(s, p + 1, CharClass::DecDigits), if c == 'b' { Base::Binary } else { Base::Octal });
        } else if c == 'x' {
            lemma_run_end_bounds(s, p + 1, CharClass::HexDigits);
            lemma_number_tail_bounds(s, run_end(s, p + 1, CharClass::HexDigits), Base::Hexadecimal);
        } else if is_dec_digit(c) || c == '_' {
            lemma_run_end_bounds(s, p, CharClass::DecDigits);
            lemma_number_tail_bounds(s, run_end(s, p, CharClass::DecDigits), Base::Decimal);
        } else if c == '.' || c == 'e' || c == 'E' {
            lemma_number_tail_bounds(s, p, Base::Decimal);
        }
    } else {
        lemma_run_end_bounds(s, p, CharClass::DecDigits);
        lemma_number_tail_bounds(s, run_end(s, p, CharClass::DecDigits), Base::Decimal);
    }
}

proof fn lemma_suffix_end_bounds(s: Seq<char>, q: int)
    requires
        0 <= q <= s.len(),
    ensures
        q <= suffix_end(s, q) <= s.len(),
{
    if spec_is_id_start(peek(s, q)) {
        lemma_run_end_bounds(s, q + 1, CharClass::IdContinue);
    }
}

proof fn lemma_single_quoted_rest_bounds(s: Seq<char>, q: int)
    requires
        0 <= q <= s.len(),
    ensures
        q <= single_quoted_rest(s, q).0 <= s.len(),
    decreases s.len() - q,
{
    if q < s.len() && s[q] != '\'' && !(s[q] == '\n' && peek(s, q + 1) != '\'') {
        if s[q] == '\\' {
            if q + 1 < s.len() {
                lemma_single_quoted_rest_bounds(s, q + 2);
            }
        } else {
            lemma_single_quoted_rest_bounds(s, q + 1);
        }
    }
}

proof fn lemma_double_quoted_bounds(s: Seq<char>, q: int)
    requires
        0 <= q <= s.len(),
    ensures
        q <= double_quoted(s, q).0 <= s.len(),
    decreases s.len() - q,
{
    if q < s.len() && s[q] != '"' {
        if s[q] == '\\' && (peek(s, q + 1) == '\\' || peek(s, q + 1) == '"') {
            lemma_double_quoted_bounds(s, q + 2);
        } else {
            lemma_double_quoted_bounds(s, q + 1);
        }
    }
}

/// Every token takes at least one character and ends inside the source.
pub proof fn lemma_scan_progress(s: Seq<char>, t: int)
    requires
        0 <= t < s.len(),
    ensures
        t < spec_scan(s, t).1 <= s.len(),
{
    let c = s[t];
    let p = t + 1;
    if c == '/' {
        if peek(s, p) == '*' {
            lemma_block_comment_end_bounds(s, p + 1, 1);
        } else if peek(s, p) == '/' {
            lemma_run_end_bounds(s, p + 1, CharClass::NotNewline);
        }
    } else if c == '#' {
        lemma_run_end_bounds(s, p, CharClass::NotNewline);
    } else if spec_is_whitespace(c) {
        lemma_run_end_bounds(s, p, CharClass::Whitespace);
    } else if c == '\n' {
        lemma_run_end_bounds(s, p, CharClass::Newline);
    } else if word_operator(s, t, c) is Some {
    } else if spec_is_id_start(c) {
        lemma_run_end_bounds(s, p, CharClass::IdContinue);
    } else if is_dec_digit(c) {
        lemma_number_bounds(s, p, c);
        lemma_suffix_end_bounds(s, spec_number(s, p, c).1);
    } else if c == '\'' {
        if !(peek(s, p + 1) == '\'' && peek(s, p) != '\\') {
            lemma_single_quoted_rest_bounds(s, p);
        }
        lemma_suffix_end_bounds(s, single_quoted(s, p).0);
    } else if c == '"' {
        lemma_double_quoted_bounds(s, p);
        lemma_suffix_end_bounds(s, double_quoted(s, p).0);
    }
}

impl<'src> Cursor<'src> {
    /// Reads the next token. Past the end of the source it is an `Eof`
    /// token of length 0; otherwise it is the token that `spec_scan` reads
    /// at the current position, and the next token starts after it.
    #[verifier::rlimit(50)]
    pub fn advance_token(&mut self) -> (t: Token)
        requires
            old(self).wf(),
        ensures
            final(self).wf(),
            final(self).text() == old(self).text(),
            final(self).source_str() == old(self).source_str(),
            old(self).position() >= old(self).text().len() ==> {
                &&& t@ == TokenView {
                    kind: TokenKind::Eof,
                    offset: byte_offset(old(self).text(), old(self).token_begin()) as u32,
                    len: 0,
                }
                &&& final(self).position() == old(self).position()
                &&& final(self).token_begin() == old(self).token_begin()
            },
            old(self).position() < old(self).text().len() ==> {
                let (k, e) = spec_scan(old(self).text(), old(self).position());
                &&& t@ == token_at(old(self).text(), old(self).token_begin(), e, k)
                &&& final(self).position() == e
                &&& final(self).token_begin() == e
            },
    {
        let ghost s = self.chars@;
        let ghost t0 = self.pos as int;
        let first_char = match self.bump() {
            Some(c) => c,
            None => {
                let (start, _) = self.token_pos();
                return Token::new(TokenKind::Eof, start as u32, 0);
            },
        };
        proof {
            assert(['n', 'd']@ =~= seq!['n', 'd']);
            assert(['o', 'd']@ =~= seq!['o', 'd']);
            assert(['o', 't']@ =~= seq!['o', 't']);
            assert(['r']@ =~= seq!['r']);
            assert(['o', 'r']@ =~= seq!['o', 'r']);
        }
        let c = first_char;
        let token_kind = if c == '/' {
            if self.first() == '*' {
                self.block_comment()
            } else if self.first() == '/' {
                self.line_comment()
            } else {
                TokenKind::Div
            }
        } else if c == '#' && self.first() == '!' {
            self.shebang()
        } else if c == '#' {
            TokenKind::Pound
        } else if is_whitespace(c) {
            self.whitespace()
        } else if is_newline(c) {
            self.newline()
        } else if c == 'a' && self.matches(['n', 'd']) {
            // Must be before ident check or else will be skipped due to `is_id_start()`
            TokenKind::And
        } else if c == 'm' && self.matches(['o', 'd']) {
            TokenKind::Mod
        } else if c == 'n' && self.matches(['o', 't']) {
            TokenKind::Not
        } else if c == 'o' && self.matches(['r']) {
            TokenKind::Or
        } else if c == 'x' && self.matches(['o', 'r']) {
            TokenKind::Xor
        } else if is_id_start(c) {
            self.ident_or_unknown_prefix(c)
        } else if '0' <= c && c <= '9' {
            let kind = self.number(c);
            self.eat_literal_suffix();
            TokenKind::Literal { kind }
        } else if c == '~' {
            TokenKind::BitNot
        } else if c == '=' && self.first() == '>' {
            self.bump();
            TokenKind::FatArrow
        } else if c == '=' {
            TokenKind::Equals
        } else if c == '!' {
            self.not()
        } else if c == '<' {
            self.lt()
        } else if c == '>' {
            self.gt()
        } else if c == '-' && self.first() == '>' {
            self.bump();
            TokenKind::Arrow
        } else if c == '-' {
            TokenKind::Minus
        } else if c == '&' {
            TokenKind::BitAnd
        } else if c == '|' {
            TokenKind::BitOr
        } else if c == '+' {
            TokenKind::Plus
        } else if c == '*' {
            TokenKind::Mul
        } else if c == '^' {
            TokenKind::Power
        } else if c == '%' {
            TokenKind::Mod
        } else if c == ';' {
            self.semi()
        } else if c == ':' {
            TokenKind::Colon
        } else if c == '?' {
            TokenKind::Question
        } else if c == ',' {
            TokenKind::Comma
        } else if c == '.' {
            TokenKind::Dot
        } else if c == '(' {
            TokenKind::OpenParen
        } else if c == ')' {
            TokenKind::CloseParen
        } else if c == '{' {
            TokenKind::OpenBrace
        } else if c == '}' {
            TokenKind::CloseBrace
        } else if c == '[' {
            TokenKind::OpenBracket
        } else if c == ']' {
            TokenKind::CloseBracket
        } else if c == '@' {
            TokenKind::At
        } else if c == '$' {
            TokenKind::Dollar
        } else if c == '\'' {
            let terminated = self.single_quoted_string();
            if terminated {
                self.eat_literal_suffix();
            }
            TokenKind::Literal { kind: LiteralKind::Char { terminated } }
        } else if c == '"' {
            let terminated = self.double_quoted_string();
            if terminated {
                self.eat_literal_suffix();
            }
            TokenKind::Literal { kind: LiteralKind::Str { terminated } }
        } else {
            TokenKind::Unknown
        };
        proof {
            assert(spec_scan(s, t0) == (token_kind, self.pos as int));
        }
        let (start, _) = self.token_pos();
        let offset = self.pos_within_token();
        let res = Token::new(token_kind, start as u32, offset as u16);
        self.reset_pos_within_token();
        res
    }
}

/// Whether the lexer drops tokens of kind `k` from its output.
pub open spec fn is_skipped(k: TokenKind) -> bool {
    ||| k == TokenKind::BlockComment { terminated: true }
    ||| k == TokenKind::LineComment
    ||| k == TokenKind::WhiteSpace
    ||| k == TokenKind::Newline
}

/// The tokens of `s` from position `t` on, without the skipped ones.
pub open spec fn spec_lex_from(s: Seq<char>, t: int) -> Seq<TokenView>
    decreases s.len() - t,
{
    if t < 0 || t >= s.len() {
        seq![]
    } else {
        let (k, e) = spec_scan(s, t);
        if e <= t || e > s.len() {
            seq![]
        } else if is_skipped(k) {
            spec_lex_from(s, e)
        } else {
            seq![token_at(s, t, e, k)] + spec_lex_from(s, e)
        }
    }
}

/// The tokens of the source `s`, without comments, whitespace and newlines.
pub open spec fn spec_lex(s: Seq<char>) -> Seq<TokenView> {
    spec_lex_from(s, 0)
}

/// Lexes `input` into its tokens; comments, whitespace and newlines are dropped.
pub fn lex(file_name: &str, input: &str) -> (v: Vec<Token>)
    requires
        utf8_len(input@) <= usize::MAX,
    ensures
        v@.map_values(|t: Token| t@) == spec_lex(input@),
{
    let mut cursor = Cursor::new(file_name, input);
    let mut vec: Vec<Token> = Vec::new();
    let ghost s = input@;
    proof {
        assert(vec@.map_values(|t: Token| t@) =~= Seq::<TokenView>::empty());
    }
    loop
        invariant
            cursor.wf(),
            cursor.text() == s,
            cursor.token_begin() == cursor.position(),
            vec@.map_values(|t: Token| t@) + spec_lex_from(s, cursor.position()) == spec_lex(s),
        ensures
            vec@.map_values(|t: Token| t@) == spec_lex(s),
        decreases s.len() - cursor.position(),
    {
        let ghost t = cursor.position();
        let ghost before = vec@.map_values(|t: Token| t@);
        proof {
            if t < s.len() {
                lemma_scan_progress(s, t);
            }
        }
        let token = cursor.advance_token();
        let kind = token.kind();
        if kind == TokenKind::Eof {
            proof {
                assert(spec_lex_from(s, t) =~= Seq::<TokenView>::empty()) by {
                    if t < s.len() {
                        // only the end of the source gives `Eof`
                        lemma_scan_not_eof(s, t);
                    }
                }
                assert(before + Seq::<TokenView>::empty() =~= before);
            }
            break;
        }
        let skip = match kind {
            TokenKind::BlockComment { terminated } => terminated,
            TokenKind::LineComment | TokenKind::WhiteSpace | TokenKind::Newline => true,
            _ => false,
        };
        if !skip {
            vec.push(token);
            proof {
                let (k, e) = spec_scan(s, t);
                assert(vec@.map_values(|t: Token| t@) =~= before.push(token_at(s, t, e, k)));
                assert(before.push(token_at(s, t, e, k)) + spec_lex_from(s, e) =~= before + (seq![token_at(s, t, e, k)] + spec_lex_from(s, e)));
            }
        }
    }
    vec
}

/// No character of the source lexes to `Eof`.
proof fn lemma_scan_not_eof(s: Seq<char>, t: int)
    requires
        0 <= t < s.len(),
    ensures
        spec_scan(s, t).0 != TokenKind::Eof,
{
    let c = s[t];
    if word_operator(s, t, c) is Some {
    } else if spec_is_id_start(c) {
        let e = run_end(s, t + 1, CharClass::IdContinue);
        assert(spec_keyword(c, s.subrange(t + 1, e)) != Some(TokenKind::Eof));
    } else if operator(s, t, c) is Some {
    } else if single_punct(c) is Some {
    }
}

proof fn lemma_lex_from_tokens(s: Seq<char>, t: int)
    requires
        0 <= t <= s.len(),
        utf8_len(s) <= u32::MAX,
    ensures
        forall|i: int| 0 <= i < spec_lex_from(s, t).len() ==> {
            let k = (#[trigger] spec_lex_from(s, t)[i]).kind;
            !is_skipped(k) && k != TokenKind::Eof && byte_offset(s, t) <= spec_lex_from(s, t)[i].offset
        },
        forall|i: int, j: int| 0 <= i < j < spec_lex_from(s, t).len() ==>
            (#[trigger] spec_lex_from(s, t)[i]).offset < (#[trigger] spec_lex_from(s, t)[j]).offset,
    decreases s.len() - t,
{
    if t < s.len() {
        let (k, e) = spec_scan(s, t);
        lemma_scan_progress(s, t);
        lemma_scan_not_eof(s, t);
        lemma_lex_from_tokens(s, e);
        crate::text::lemma_byte_offset_strict(s, t, e);
        crate::text::lemma_byte_offset_bounded(s, t);
        let rest = spec_lex_from(s, e);
        if !is_skipped(k) {
            let head = token_at(s, t, e, k);
            assert(head.offset == byte_offset(s, t));
            assert(spec_lex_from(s, t) == seq![head] + rest);
            assert forall|i: int| 0 <= i < spec_lex_from(s, t).len() implies {
                let k = (#[trigger] spec_lex_from(s, t)[i]).kind;
                !is_skipped(k) && k != TokenKind::Eof && byte_offset(s, t) <= spec_lex_from(s, t)[i].offset
            } by {
                if i > 0 {
                    assert(spec_lex_from(s, t)[i] == rest[i - 1]);
                }
            }
            assert forall|i: int, j: int| 0 <= i < j < spec_lex_from(s, t).len() implies
                (#[trigger] spec_lex_from(s, t)[i]).offset < (#[trigger] spec_lex_from(s, t)[j]).offset by {
                assert(spec_lex_from(s, t)[j] == rest[j - 1]);
                if i > 0 {
                    assert(spec_lex_from(s, t)[i] == rest[i - 1]);
                }
            }
        }
    }
}

/// Successive tokens tile the source with no gap and no overlap: the token
/// that `advance_token` gives at character `t` is never the end of input,
/// ends at a later character `e` where the next token starts, and (for a
/// source of at most 65535 bytes, where offsets and lengths are not cut)
/// covers exactly the bytes from the offset of `t` to the offset of `e`.
pub proof fn lemma_tokens_tile(s: Seq<char>, t: int)
    requires
        0 <= t < s.len(),
    ensures
        ({
            let (k, e) = spec_scan(s, t);
            let tok = token_at(s, t, e, k);
            &&& t < e <= s.len()
            &&& k != TokenKind::Eof
            &&& utf8_len(s) <= 0xFFFF ==> tok.offset == byte_offset(s, t) && tok.offset + tok.len == byte_offset(s, e)
                && tok.len >= 1
        }),
{
    let (k, e) = spec_scan(s, t);
    lemma_scan_progress(s, t);
    lemma_scan_not_eof(s, t);
    crate::text::lemma_byte_offset_strict(s, t, e);
    crate::text::lemma_byte_offset_bounded(s, e);
}

/// Once every character is read, the token is the end of input at the byte
/// length of the source with length 0; `advance_token` then keeps the
/// position and the token start, so every further call gives that token again.
pub proof fn lemma_end_token(s: Seq<char>)
    requires
        utf8_len(s) <= u32::MAX,
    ensures
        (TokenView { kind: TokenKind::Eof, offset: byte_offset(s, s.len() as int) as u32, len: 0 }).offset == utf8_len(s),
{
    assert(s.take(s.len() as int) =~= s);
}

/// Operators are read whole: where two characters make an operator (`>=`,
/// `<=`, `!=`, `>>`, `<<`, `->`, `=>`, `;;`), the token that starts at the
/// first of them is that operator and ends after the second; `>`, `<`, `!`,
/// `-`, `=` and `;` that nothing continues, and `+`, `*`, `^`, and `/` that
/// starts no comment, are operators of one character.
pub proof fn lemma_operators_read_whole(s: Seq<char>, t: int)
    requires
        0 <= t < s.len(),
    ensures
        s[t] == '>' && peek(s, t + 1) == '=' ==> spec_scan(s, t) == (TokenKind::GtEq, t + 2),
        s[t] == '<' && peek(s, t + 1) == '=' ==> spec_scan(s, t) == (TokenKind::LtEq, t + 2),
        s[t] == '!' && peek(s, t + 1) == '=' ==> spec_scan(s, t) == (TokenKind::NotEq, t + 2),
        s[t] == '>' && peek(s, t + 1) == '>' ==> spec_scan(s, t) == (TokenKind::ShiftRight, t + 2),
        s[t] == '<' && peek(s, t + 1) == '<' ==> spec_scan(s, t) == (TokenKind::ShiftLeft, t + 2),
        s[t] == '-' && peek(s, t + 1) == '>' ==> spec_scan(s, t) == (TokenKind::Arrow, t + 2),
        s[t] == '=' && peek(s, t + 1) == '>' ==> spec_scan(s, t) == (TokenKind::FatArrow, t + 2),
        s[t] == ';' && peek(s, t + 1) == ';' ==> spec_scan(s, t) == (TokenKind::DoubleSemi, t + 2),
        s[t] == '>' && peek(s, t + 1) != '=' && peek(s, t + 1) != '>' ==> spec_scan(s, t) == (TokenKind::Gt, t + 1),
        s[t] == '<' && peek(s, t + 1) != '=' && peek(s, t + 1) != '<' ==> spec_scan(s, t) == (TokenKind::Lt, t + 1),
        s[t] == '!' && peek(s, t + 1) != '=' ==> spec_scan(s, t) == (TokenKind::Not, t + 1),
        s[t] == '-' && peek(s, t + 1) != '>' ==> spec_scan(s, t) == (TokenKind::Minus, t + 1),
        s[t] == '=' && peek(s, t + 1) != '>' ==> spec_scan(s, t) == (TokenKind::Equals, t + 1),
        s[t] == ';' && peek(s, t + 1) != ';' ==> spec_scan(s, t) == (TokenKind::Semi, t + 1),
        s[t] == '+' ==> spec_scan(s, t) == (TokenKind::Plus, t + 1),
        s[t] == '*' ==> spec_scan(s, t) == (TokenKind::Mul, t + 1),
        s[t] == '^' ==> spec_scan(s, t) == (TokenKind::Power, t + 1),
        s[t] == '/' && peek(s, t + 1) != '*' && peek(s, t + 1) != '/' ==> spec_scan(s, t) == (TokenKind::Div, t + 1),
{
}

/// Names are read whole: from a character that starts a name (where no
/// word operator starts), the token runs over every character that
/// continues a name, up to the first that does not or the end; it is the
/// keyword `if`, `fn`, `nil`, `let`, `do`, `print`, `println`, `true` or
/// `false` where the word is one of these, and a name otherwise.
pub proof fn lemma_names_read_whole(s: Seq<char>, t: int)
    requires
        0 <= t < s.len(),
        spec_is_id_start(s[t]),
        word_operator(s, t, s[t]) is None,
    ensures
        ({
            let (k, e) = spec_scan(s, t);
            let w = s.subrange(t, e);
            &&& t < e <= s.len()
            &&& forall|j: int| t < j < e ==> spec_is_id_continue(#[trigger] s[j])
            &&& e == s.len() || !spec_is_id_continue(s[e])
            &&& k == if w == seq!['i', 'f'] {
                TokenKind::If
            } else if w == seq!['f', 'n'] {
                TokenKind::Fn
            } else if w == seq!['n', 'i', 'l'] {
                TokenKind::Nil
            } else if w == seq!['l', 'e', 't'] {
                TokenKind::Let
            } else if w == seq!['d', 'o'] {
                TokenKind::Do
            } else if w == seq!['p', 'r', 'i', 'n', 't'] {
                TokenKind::Print
            } else if w == seq!['p', 'r', 'i', 'n', 't', 'l', 'n'] {
                TokenKind::Println
            } else if w == seq!['t', 'r', 'u', 'e'] {
                TokenKind::True
            } else if w == seq!['f', 'a', 'l', 's', 'e'] {
                TokenKind::False
            } else {
                TokenKind::Ident
            }
        }),
{
    let c = s[t];
    lemma_run_end_bounds(s, t + 1, CharClass::IdContinue);
    let e = run_end(s, t + 1, CharClass::IdContinue);
    let w = s.subrange(t, e);
    let rest = s.subrange(t + 1, e);
    assert(w =~= seq![c] + rest);
    assert(w.len() == rest.len() + 1);
    assert(seq!['i', 'f'] =~= seq!['i'] + seq!['f']);
    lemma_cons_eq(c, rest, 'i', seq!['f']);
    assert(seq!['f', 'n'] =~= seq!['f'] + seq!['n']);
    lemma_cons_eq(c, rest, 'f', seq!['n']);
    assert(seq!['n', 'i', 'l'] =~= seq!['n'] + seq!['i', 'l']);
    lemma_cons_eq(c, rest, 'n', seq!['i', 'l']);
    assert(seq!['l', 'e', 't'] =~= seq!['l'] + seq!['e', 't']);
    lemma_cons_eq(c, rest, 'l', seq!['e', 't']);
    assert(seq!['d', 'o'] =~= seq!['d'] + seq!['o']);
    lemma_cons_eq(c, rest, 'd', seq!['o']);
    assert(seq!['p', 'r', 'i', 'n', 't'] =~= seq!['p'] + seq!['r', 'i', 'n', 't']);
    lemma_cons_eq(c, rest, 'p', seq!['r', 'i', 'n', 't']);
    assert(seq!['p', 'r', 'i', 'n', 't', 'l', 'n'] =~= seq!['p'] + seq!['r', 'i', 'n', 't', 'l', 'n']);
    lemma_cons_eq(c, rest, 'p', seq!['r', 'i', 'n', 't', 'l', 'n']);
    assert(seq!['t', 'r', 'u', 'e'] =~= seq!['t'] + seq!['r', 'u', 'e']);
    lemma_cons_eq(c, rest, 't', seq!['r', 'u', 'e']);
    assert(seq!['f', 'a', 'l', 's', 'e'] =~= seq!['f'] + seq!['a', 'l', 's', 'e']);
    lemma_cons_eq(c, rest, 'f', seq!['a', 'l', 's', 'e']);
}

proof fn lemma_cons_eq(x: char, u: Seq<char>, y: char, v: Seq<char>)
    ensures
        (seq![x] + u == seq![y] + v) <==> (x == y && u == v),
{
    if seq![x] + u == seq![y] + v {
        assert((seq![x] + u)[0] == x);
        assert((seq![x] + u).skip(1) =~= u);
        assert((seq![y] + v).skip(1) =~= v);
    }
}

/// Every token that repeated `advance_token` calls give from character `t`
/// on, up to (and without) the end of input.
pub open spec fn spec_scan_from(s: Seq<char>, t: int) -> Seq<TokenView>
    decreases s.len() - t,
{
    if t < 0 || t >= s.len() {
        seq![]
    } else {
        let (k, e) = spec_scan(s, t);
        if e <= t || e > s.len() {
            seq![]
        } else {
            seq![token_at(s, t, e, k)] + spec_scan_from(s, e)
        }
    }
}

/// The tokens that `lex` keeps: all but whitespace, newlines, line comments
/// and closed block comments.
pub open spec fn kept_token() -> spec_fn(TokenView) -> bool {
    |tv: TokenView| !is_skipped(tv.kind)
}

proof fn lemma_lex_from_filters(s: Seq<char>, t: int)
    requires
        0 <= t <= s.len(),
    ensures
        spec_lex_from(s, t) == spec_scan_from(s, t).filter(kept_token()),
    decreases s.len() - t,
{
    reveal(Seq::filter);
    if t < s.len() {
        let (k, e) = spec_scan(s, t);
        lemma_scan_progress(s, t);
        lemma_lex_from_filters(s, e);
        let head = seq![token_at(s, t, e, k)];
        Seq::filter_distributes_over_add(head, spec_scan_from(s, e), kept_token());
        assert(head.drop_last() =~= Seq::<TokenView>::empty());
        assert(Seq::<TokenView>::empty().filter(kept_token()) =~= Seq::<TokenView>::empty());
        if is_skipped(k) {
            assert(head.filter(kept_token()) =~= Seq::<TokenView>::empty());
            assert(spec_lex_from(s, t) =~= spec_scan_from(s, t).filter(kept_token()));
        } else {
            assert(head.filter(kept_token()) =~= head);
        }
    } else {
        assert(spec_scan_from(s, t).filter(kept_token()) =~= Seq::<TokenView>::empty());
    }
}

/// `lex` gives the tokens that repeated `advance_token` calls give, up to
/// the end of input, in the same order, without whitespace, newlines, line
/// comments and closed block comments (unclosed block comments, shebangs and
/// unknown tokens stay).
pub proof fn lemma_lex_filters(s: Seq<char>)
    ensures
        spec_lex(s) == spec_scan_from(s, 0).filter(kept_token()),
{
    lemma_lex_from_filters(s, 0);
}

/// The tokens that `lex` gives are in the order of the source, each at a
/// later byte offset than the one before; none of them is the end of input,
/// whitespace, a newline or a comment that is closed (for a source whose
/// byte offsets fit a token's offset).
pub proof fn lemma_lex_tokens_in_order(s: Seq<char>)
    requires
        utf8_len(s) <= u32::MAX,
    ensures
        forall|i: int| 0 <= i < spec_lex(s).len() ==> !is_skipped((#[trigger] spec_lex(s)[i]).kind)
            && spec_lex(s)[i].kind != TokenKind::Eof,
        forall|i: int, j: int| 0 <= i < j < spec_lex(s).len() ==> (#[trigger] spec_lex(s)[i]).offset
            < (#[trigger] spec_lex(s)[j]).offset,
{
    lemma_lex_from_tokens(s, 0);
}

proof fn lemma_double_quoted_closed(s: Seq<char>, q: int)
    requires
        0 <= q,
    ensures
        double_quoted(s, q).1 ==> q < double_quoted(s, q).0 <= s.len() && s[double_quoted(s, q).0 - 1] == '"',
    decreases s.len() - q,
{
    if q < s.len() && s[q] != '"' {
        if s[q] == '\\' && (peek(s, q + 1) == '\\' || peek(s, q + 1) == '"') {
            lemma_double_quoted_closed(s, q + 2);
        } else {
            lemma_double_quoted_closed(s, q + 1);
        }
    }
}

/// A closed string literal token has at least two characters: a double
/// quote first, and an ASCII character last (its closing quote, or the
/// last letter of its suffix).
pub proof fn lemma_closed_str_token(s: Seq<char>, t: int)
    requires
        0 <= t < s.len(),
        spec_scan(s, t).0 == (TokenKind::Literal { kind: LiteralKind::Str { terminated: true } }),
    ensures
        t + 2 <= spec_scan(s, t).1 <= s.len(),
        s[t] == '"',
        (s[spec_scan(s, t).1 - 1] as u32) < 0x80,
{
    let c = s[t];
    let p = t + 1;
    if spec_is_id_start(c) {
        let e = run_end(s, p, CharClass::IdContinue);
        assert(spec_keyword(c, s.subrange(p, e)) != Some(TokenKind::Literal { kind: LiteralKind::Str { terminated: true } }));
    }
    assert(c == '"');
    lemma_double_quoted_closed(s, p);
    let (q, terminated) = double_quoted(s, p);
    assert(terminated);
    if spec_is_id_start(peek(s, q)) {
        lemma_run_end_bounds(s, q + 1, CharClass::IdContinue);
        let e = run_end(s, q + 1, CharClass::IdContinue);
        if e > q + 1 {
            assert(in_class(CharClass::IdContinue, s[e - 1]));
        }
    }
}

// ---------------------------------------------------------------------------
// Diagnostics.
// ---------------------------------------------------------------------------

/// A diagnostic: a message and the byte range of the source it is about.
#[derive(Debug, Clone)]
pub struct Error {
    message: String,
    offset: usize,
    len: usize,
}

impl Error {
    /// A diagnostic with `message` about the `len` bytes at `offset`.
    pub fn new(message: String, offset: usize, len: usize) -> (e: Self)
        ensures
            e.spec_message() == message@,
            e.spec_offset() == offset,
            e.spec_len() == len,
    {
        Self { message, offset, len }
    }

    /// The message of the diagnostic.
    pub closed spec fn spec_message(&self) -> Seq<char> {
        self.message@
    }

    /// The byte offset of the source that the diagnostic is about.
    pub closed spec fn spec_offset(&self) -> usize {
        self.offset
    }

    /// How many bytes of the source the diagnostic is about.
    pub closed spec fn spec_len(&self) -> usize {
        self.len
    }

    /// The report of this diagnostic for the file `file_name` whose content
    /// is `file_content`: the message, the place, the line and a marker
    /// under the reported bytes.
    fn format(&self, file_name: &str, file_content: &str) -> (r: String)
        requires
            format_ok(file_content@, self.offset as int, self.len as int),
        ensures
            r@ == spec_format(self.message@, file_name@, file_content@, self.offset as int, self.len as int),
    {
        let (line, col) = file_content.pos(self.offset);
        let substr = file_content.line(line);
        let line_str = decimal_string(line);
        let pad_l = repeat_char(' ', line_str.unicode_len());
        let pad_r = repeat_char(' ', col);
        let uline = repeat_char('^', self.len);
        let mut r = "error: ".to_owned();
        r.append(self.message.as_str());
        r.append("\n");
        r.append(pad_l.as_str());
        r.append("--> ");
        r.append(file_name);
        r.append("@");
        r.append(line_str.as_str());
        r.append(":");
        r.append(decimal_string(col + 1).as_str());
        r.append("\n");
        r.append(line_str.as_str());
        r.append(" | ");
        r.append(substr);
        r.append("\n");
        r.append(pad_l.as_str());
        r.append("   ");
        r.append(pad_r.as_str());
        r.append(uline.as_str());
        r
    }
}

/// `n` spaces.
pub open spec fn spaces(n: nat) -> Seq<char> {
    Seq::new(n, |i: int| ' ')
}

/// The inputs on which reporting a diagnostic about the `len` bytes at
/// `offset` of `content` does not panic: the offset is that of a character,
/// and the reported bytes start and end at character boundaries of its line.
pub open spec fn format_ok(content: Seq<char>, offset: int, len: int) -> bool {
    let (line, col) = spec_pos(content, offset);
    let l = spec_lines(content)[line - 1];
    &&& offset < content.len()
    &&& pos_ok(content, offset)
    &&& 1 <= line <= spec_lines(content).len()
    &&& is_boundary(l, col as int)
    &&& is_boundary(l, col + len)
    &&& col + len + 1 <= usize::MAX
}

/// The report of a diagnostic with `message` about the `len` bytes at
/// `offset` of the file `file_name` whose content is `content`.
pub open spec fn spec_format(message: Seq<char>, file_name: Seq<char>, content: Seq<char>, offset: int, len: int) -> Seq<char> {
    let (line, col) = spec_pos(content, offset);
    let l = spec_lines(content)[line - 1];
    let pad_l = spaces(decimal(line).len());
    "error: "@ + message + "\n"@ + pad_l + "--> "@ + file_name + "@"@ + decimal(line) + ":"@ + decimal(
        col + 1,
    ) + "\n"@ + decimal(line) + " | "@ + l + "\n"@ + pad_l + "   "@ + spaces(col) + Seq::new(
        len as nat,
        |i: int| '^',
    )
}

/// The diagnostics collected while reading a source.
#[derive(Debug)]
pub struct Errors<'s> {
    had_error: bool,
    errors: VecDeque<Error>,
    pub(crate) source: &'s str,
    file_name: &'s str,
}

impl<'s> Errors<'s> {
    /// Whether an error was pushed since the last reset.
    pub closed spec fn spec_had_error(&self) -> bool {
        self.had_error
    }

    /// The diagnostics not yet taken out, oldest first, as (message, offset, len).
    pub closed spec fn pending(&self) -> Seq<(Seq<char>, usize, usize)> {
        self.errors@.map_values(|e: Error| (e.message@, e.offset, e.len))
    }

    /// The source that the diagnostics are about.
    pub closed spec fn spec_source(&self) -> &'s str {
        self.source
    }

    /// The name of the file of the source.
    pub closed spec fn spec_file_name(&self) -> &'s str {
        self.file_name
    }

    /// No diagnostics yet, for the source `source` of the file `file_name`.
    pub fn new(file_name: &'s str, source: &'s str) -> (e: Self)
        ensures
            !e.spec_had_error(),
            e.pending() == Seq::<(Seq<char>, usize, usize)>::empty(),
            e.spec_source() == source,
            e.spec_file_name() == file_name,
    {
        let e = Self { had_error: false, errors: VecDeque::new(), source, file_name };
        proof {
            assert(e.pending() =~= Seq::<(Seq<char>, usize, usize)>::empty());
        }
        e
    }

    /// Records a diagnostic.
    pub fn push(&mut self, message: &str, offset: usize, len: usize)
        ensures
            final(self).spec_had_error() == flag_after(old(self).spec_had_error(), ErrorsCall::Push),
            final(self).spec_had_error(),
            final(self).pending() == old(self).pending().push((message@, offset, len)),
            final(self).spec_source() == old(self).spec_source(),
            final(self).spec_file_name() == old(self).spec_file_name(),
    {
        self.had_error = true;
        let ghost old_errors = self.errors@;
        self.errors.push_back(Error::new(message.to_owned(), offset, len));
        proof {
            assert(self.pending() =~= old(self).pending().push((message@, offset, len)));
        }
    }

    /// Takes out the oldest diagnostic.
    pub fn pop(&mut self) -> (e: Option<Error>)
        ensures
            final(self).spec_had_error() == flag_after(old(self).spec_had_error(), ErrorsCall::Pop),
            old(self).pending().len() == 0 ==> e is None && final(self).pending() == old(self).pending(),
            old(self).pending().len() > 0 ==> e is Some && (e->0.spec_message(), e->0.spec_offset(),
                e->0.spec_len()) == old(self).pending()[0] && final(self).pending()
                == old(self).pending().drop_first(),
            final(self).spec_had_error() == old(self).spec_had_error(),
            final(self).spec_source() == old(self).spec_source(),
            final(self).spec_file_name() == old(self).spec_file_name(),
    {
        let e = self.errors.pop_front();
        proof {
            assert(self.pending() =~= if old(self).pending().len() == 0 {
                old(self).pending()
            } else {
                old(self).pending().drop_first()
            });
        }
        e
    }

    /// Every pending diagnostic can be reported against the source.
    pub open spec fn reportable(&self) -> bool {
        forall|i: int|
            0 <= i < self.pending().len() ==> format_ok(
                self.spec_source()@,
                #[trigger] self.pending()[i].1 as int,
                self.pending()[i].2 as int,
            )
    }

    /// The report of a pending diagnostic.
    pub open spec fn report_of(&self, e: (Seq<char>, usize, usize)) -> Seq<char> {
        spec_format(e.0, self.spec_file_name()@, self.spec_source()@, e.1 as int, e.2 as int)
    }

    /// Takes out the oldest diagnostic and gives its report.
    pub fn next_message(&mut self) -> (m: Option<String>)
        requires
            old(self).reportable(),
        ensures
            final(self).spec_had_error() == flag_after(old(self).spec_had_error(), ErrorsCall::NextMessage),
            final(self).reportable(),
            final(self).spec_source() == old(self).spec_source(),
            final(self).spec_file_name() == old(self).spec_file_name(),
            final(self).spec_had_error() == old(self).spec_had_error(),
            old(self).pending().len() == 0 ==> m is None && final(self).pending() == old(self).pending(),
            old(self).pending().len() > 0 ==> m is Some && m->0@ == old(self).report_of(old(self).pending()[0])
                && final(self).pending() == old(self).pending().drop_first(),
    {
        let ghost before = self.pending();
        match self.pop() {
            Some(e) => {
                proof {
                    assert(format_ok(self.source@, before[0].1 as int, before[0].2 as int));
                    assert forall|i: int| 0 <= i < self.pending().len() implies format_ok(
                        self.spec_source()@,
                        #[trigger] self.pending()[i].1 as int,
                        self.pending()[i].2 as int,
                    ) by {
                        assert(self.pending()[i] == before[i + 1]);
                    }
                }
                Some(e.format(self.file_name, self.source))
            },
            None => None,
        }
    }

    /// The report of `error` against the source, as it is written to the
    /// terminal.
    pub fn report(&self, error: &Error) -> (r: String)
        requires
            format_ok(self.spec_source()@, error.spec_offset() as int, error.spec_len() as int),
        ensures
            r@ == self.report_of((error.spec_message(), error.spec_offset(), error.spec_len())),
    {
        error.format(self.file_name, self.source)
    }

    /// Takes out every pending diagnostic and gives their reports, oldest first.
    pub fn report_all(&mut self) -> (reports: Vec<String>)
        requires
            old(self).reportable(),
        ensures
            final(self).spec_had_error() == flag_after(old(self).spec_had_error(), ErrorsCall::ReportAll),
            final(self).pending().len() == 0,
            final(self).spec_source() == old(self).spec_source(),
            final(self).spec_file_name() == old(self).spec_file_name(),
            final(self).spec_had_error() == old(self).spec_had_error(),
            reports.len() == old(self).pending().len(),
            forall|i: int| 0 <= i < reports.len() ==> #[trigger] reports@[i]@ == old(self).report_of(
                old(self).pending()[i],
            ),
    {
        let ghost all = self.pending();
        let mut reports: Vec<String> = Vec::new();
        loop
            invariant
                self.reportable(),
                self.spec_source() == old(self).spec_source(),
                self.spec_file_name() == old(self).spec_file_name(),
                self.spec_had_error() == old(self).spec_had_error(),
                all == old(self).pending(),
                reports.len() + self.pending().len() == all.len(),
                self.pending() == all.skip(reports.len() as int),
                forall|i: int| 0 <= i < reports.len() ==> #[trigger] reports@[i]@ == old(self).report_of(all[i]),
            ensures
                self.pending().len() == 0,
                self.spec_source() == old(self).spec_source(),
                self.spec_file_name() == old(self).spec_file_name(),
                self.spec_had_error() == old(self).spec_had_error(),
                reports.len() == all.len(),
                forall|i: int| 0 <= i < reports.len() ==> #[trigger] reports@[i]@ == old(self).report_of(all[i]),
            decreases self.pending().len(),
        {
            let ghost before = self.pending();
            match self.next_message() {
                Some(m) => {
                    proof {
                        assert(before[0] == all[reports.len() as int]);
                        assert(self.pending() =~= all.skip(reports.len() + 1));
                    }
                    reports.push(m);
                },
                None => break,
            }
        }
        reports
    }

    /// Whether an error was pushed since the last reset.
    pub fn had_error(&self) -> (b: bool)
        ensures
            b == self.spec_had_error(),
    {
        self.had_error
    }

    /// Forgets that errors were pushed; the pending diagnostics stay.
    pub fn reset_errors(&mut self)
        ensures
            final(self).spec_had_error() == flag_after(old(self).spec_had_error(), ErrorsCall::Reset),
            !final(self).spec_had_error(),
            final(self).pending() == old(self).pending(),
            final(self).spec_source() == old(self).spec_source(),
            final(self).spec_file_name() == old(self).spec_file_name(),
    {
        self.had_error = false;
    }
}

/// A call on a queue of diagnostics, as far as its error flag goes.
pub enum ErrorsCall {
    Push,
    Pop,
    NextMessage,
    ReportAll,
    Reset,
}

/// The error flag after `call`, when it was `flag` before: `push` sets it,
/// `reset_errors` clears it, and the calls that take diagnostics out keep it.
pub open spec fn flag_after(flag: bool, call: ErrorsCall) -> bool {
    match call {
        ErrorsCall::Push => true,
        ErrorsCall::Reset => false,
        _ => flag,
    }
}

/// The error flag after `calls` on a new queue.
pub open spec fn flag_after_calls(calls: Seq<ErrorsCall>) -> bool
    decreases calls.len(),
{
    if calls.len() == 0 {
        false
    } else {
        flag_after(flag_after_calls(calls.drop_last()), calls.last())
    }
}

/// `had_error` after a run of calls on a new queue (`new`'s flag is clear;
/// `push`, `pop`, `next_message`, `report_all` and `reset_errors` change it as
/// `flag_after` says) tells whether some `push` came after the last
/// `reset_errors`.
pub proof fn lemma_had_error_history(calls: Seq<ErrorsCall>)
    ensures
        flag_after_calls(calls) <==> exists|i: int|
            0 <= i < calls.len() && calls[i] is Push && forall|j: int| i < j < calls.len() ==> !(calls[j] is Reset),
    decreases calls.len(),
{
    if calls.len() > 0 {
        let init = calls.drop_last();
        lemma_had_error_history(init);
        let n = calls.len() - 1;
        if calls.last() is Push {
            assert(calls[n] is Push);
        } else if calls.last() is Reset {
            assert forall|i: int| 0 <= i < calls.len() && calls[i] is Push implies
                !(forall|j: int| i < j < calls.len() ==> !(calls[j] is Reset)) by {
                assert(i < n);
                assert(calls[n] is Reset);
            }
        } else {
            if flag_after_calls(init) {
                let i = choose|i: int| 0 <= i < init.len() && init[i] is Push && forall|j: int| i < j < init.len() ==> !(init[j] is Reset);
                assert(calls[i] == init[i]);
                assert forall|j: int| i < j < calls.len() implies !(calls[j] is Reset) by {
                    if j < n {
                        assert(calls[j] == init[j]);
                    }
                }
            } else {
                assert forall|i: int| 0 <= i < calls.len() && calls[i] is Push implies
                    !(forall|j: int| i < j < calls.len() ==> !(calls[j] is Reset)) by {
                    assert(i < n);
                    assert(calls[i] == init[i]);
                    assert(!(forall|j: int| i < j < init.len() ==> !(init[j] is Reset)));
                    let j = choose|j: int| i < j < init.len() && init[j] is Reset;
                    assert(calls[j] == init[j]);
                }
            }
        }
    }
}

} // verus!
