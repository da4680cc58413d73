//! The parser: turns tokens into expressions.
//!
//! The grammar is stated by the spec functions of this module over the
//! tokens (read as `TokenView`s) and the source text they point into; the
//! parser is proved to follow it, errors and their reasons included.

use std::rc::Rc;
use vstd::prelude::*;

use crate::error::Error;
use crate::lex::{lemma_operators_read_whole, peek, spec_scan, Base, LiteralKind, Token, TokenKind, TokenView};
use crate::literal::{i128_from_str_radix, is_float_literal, is_float_text, spec_i128_from_str_radix};
use crate::str_ext::{boundary_table, char_index, is_boundary, lemma_char_index_bounds, spec_substr, substr_ok, Substr};
use crate::text::{
    byte_offsets, chars_of, concat, is_ascii_char, lemma_utf8_len_subrange, string_of, utf8_len,
};
use crate::unescape::{
    item_view, spec_unescape_char, spec_unescape_unicode, unescape_char, unescape_unicode,
    EscapeError, Mode, SpecItem,
};

verus! {

/// A number literal: an integer, or the text of a decimal float.
#[derive(Debug, Clone, PartialEq)]
pub enum Number {
    Discrete(i128),
    Float(String),
}

/// An expression.
#[derive(Debug, PartialEq)]
pub enum Expr {
    Nil,
    Bool(bool),
    Ident(String),
    Number(Number),
    Char(char),
    String(String),
    List(Vec<Expr>),
}

/// A number literal read as plain values.
pub enum NumberView {
    Discrete(i128),
    Float(Seq<char>),
}

/// An expression read as plain values.
pub enum ExprView {
    Nil,
    Bool(bool),
    Ident(Seq<char>),
    Number(NumberView),
    Char(char),
    Str(Seq<char>),
    List(Seq<ExprView>),
}

/// A number literal read as plain values.
pub open spec fn number_view(n: Number) -> NumberView {
    match n {
        Number::Discrete(i) => NumberView::Discrete(i),
        Number::Float(s) => NumberView::Float(s@),
    }
}

/// An expression read as plain values.
pub open spec fn expr_view(e: Expr) -> ExprView
    decreases e,
{
    match e {
        Expr::Nil => ExprView::Nil,
        Expr::Bool(b) => ExprView::Bool(b),
        Expr::Ident(s) => ExprView::Ident(s@),
        Expr::Number(n) => ExprView::Number(number_view(n)),
        Expr::Char(c) => ExprView::Char(c),
        Expr::String(s) => ExprView::Str(s@),
        Expr::List(v) => ExprView::List(exprs_view(v@)),
    }
}

/// Expressions read as plain values.
pub open spec fn exprs_view(s: Seq<Expr>) -> Seq<ExprView>
    decreases s,
{
    if s.len() == 0 {
        seq![]
    } else {
        exprs_view(s.subrange(0, s.len() - 1)).push(expr_view(s[s.len() - 1]))
    }
}

impl View for Expr {
    type V = ExprView;

    open spec fn view(&self) -> ExprView {
        expr_view(*self)
    }
}

/// Appending an expression appends its view.
pub proof fn lemma_exprs_view_push(s: Seq<Expr>, e: Expr)
    ensures
        exprs_view(s.push(e)) == exprs_view(s).push(expr_view(e)),
{
    assert(s.push(e).subrange(0, s.len() as int) =~= s);
}

/// A list of expressions has as many views as expressions.
pub proof fn lemma_exprs_view_len(s: Seq<Expr>)
    ensures
        exprs_view(s).len() == s.len(),
    decreases s.len(),
{
    if s.len() > 0 {
        lemma_exprs_view_len(s.subrange(0, s.len() - 1));
    }
}

/// The view at a position is the view of the expression there.
pub proof fn lemma_exprs_view_index(s: Seq<Expr>, j: int)
    requires
        0 <= j < s.len(),
    ensures
        exprs_view(s)[j] == expr_view(s[j]),
    decreases s.len(),
{
    lemma_exprs_view_len(s.subrange(0, s.len() - 1));
    if j < s.len() - 1 {
        lemma_exprs_view_index(s.subrange(0, s.len() - 1), j);
    }
}

/// The name of an identifier (empty for any other expression).
pub open spec fn ident_name(e: ExprView) -> Seq<char> {
    match e {
        ExprView::Ident(s) => s,
        _ => seq![],
    }
}

/// The names of a parameter list: `form` must be a list whose items are
/// all identifiers.
pub open spec fn spec_symbol_strings(form: ExprView) -> Result<Seq<Seq<char>>, Seq<char>> {
    match form {
        ExprView::List(items) => if forall|i: int| 0 <= i < items.len() ==> (#[trigger] items[i]) is Ident {
            Ok(items.map_values(|x: ExprView| ident_name(x)))
        } else {
            Err("Expected identifiers in the argument list."@)
        },
        _ => Err("Expected args form to be a list."@),
    }
}

// ---------------------------------------------------------------------------
// Binding powers.
// ---------------------------------------------------------------------------

/// The binding power classes of infix operators.
#[derive(Clone, Copy, PartialEq, Eq, Structural)]
pub enum Prec {
    Lowest,
    Assign,
    Equality,
    Compare,
    AddSub,
    MulDiv,
    Power,
    Call,
}

impl Prec {
    /// The left binding power of this class.
    pub open spec fn spec_lbp(self) -> nat {
        match self {
            Prec::Lowest => 0,
            Prec::Assign => 1,
            Prec::Equality => 2,
            Prec::Compare => 3,
            Prec::AddSub => 4,
            Prec::MulDiv => 5,
            Prec::Power => 6,
            Prec::Call => 10,
        }
    }

    /// The left binding power of this class.
    pub fn lbp(&self) -> (b: u8)
        ensures
            b == self.spec_lbp(),
    {
        match self {
            Prec::Lowest => 0,
            Prec::Assign => 1,
            Prec::Equality => 2,
            Prec::Compare => 3,
            Prec::AddSub => 4,
            Prec::MulDiv => 5,
            Prec::Power => 6,
            Prec::Call => 10,
        }
    }
}

/// The binding power class of a token kind when it stands between two operands.
pub open spec fn spec_precedence(kind: TokenKind) -> Prec {
    match kind {
        TokenKind::EqEq => Prec::Equality,
        TokenKind::Equals => Prec::Assign,
        TokenKind::Lt | TokenKind::LtEq | TokenKind::Gt | TokenKind::GtEq | TokenKind::NotEq => Prec::Compare,
        TokenKind::Plus | TokenKind::Minus => Prec::AddSub,
        TokenKind::Mul | TokenKind::Div => Prec::MulDiv,
        TokenKind::Power => Prec::Power,
        _ => Prec::Lowest,
    }
}

/// Whether a token of kind `kind` can start an expression (an argument of a call).
pub open spec fn spec_is_start_of_expr(kind: TokenKind) -> bool {
    match kind {
        TokenKind::Ident | TokenKind::Literal { .. } | TokenKind::OpenParen | TokenKind::OpenBrace
        | TokenKind::Fn | TokenKind::If | TokenKind::Let => true,
        _ => false,
    }
}

/// The name of the function that an infix operator stands for.
pub open spec fn infix_name(kind: TokenKind) -> Seq<char> {
    match kind {
        TokenKind::Plus => "+"@,
        TokenKind::Minus => "-"@,
        TokenKind::Mul => "*"@,
        TokenKind::Div => "/"@,
        TokenKind::Power => "^"@,
        TokenKind::EqEq => "="@,
        TokenKind::GtEq => ">="@,
        TokenKind::Gt => ">"@,
        TokenKind::LtEq => "<="@,
        TokenKind::Lt => "<"@,
        TokenKind::NotEq => "!="@,
        TokenKind::Not => "!"@,
        _ => "unknown_op"@,
    }
}

/// `left op right` as the list `(name left right)`.
pub open spec fn spec_desugar_infix(kind: TokenKind, left: ExprView, right: ExprView) -> ExprView {
    ExprView::List(seq![ExprView::Ident(infix_name(kind)), left, right])
}

// ---------------------------------------------------------------------------
// Atoms and literals.
// ---------------------------------------------------------------------------

/// The tokens of a sequence read as plain values.
pub open spec fn views(ts: Seq<Token>) -> Seq<TokenView> {
    ts.map_values(|t: Token| t@)
}

/// The text of the source that a token points at.
pub open spec fn token_text(src: Seq<char>, t: TokenView) -> Seq<char> {
    spec_substr(src, t.offset as int, t.len as int)->0
}

/// A token points at a non-empty piece of the source that starts and ends
/// at character boundaries; a closed string literal's piece has at least
/// two characters and ASCII ones at its ends.
pub open spec fn token_ok(src: Seq<char>, t: TokenView) -> bool {
    &&& substr_ok(src, t.offset as int, t.len as int)
    &&& spec_substr(src, t.offset as int, t.len as int) is Some
    &&& (t.kind == (TokenKind::Literal { kind: LiteralKind::Str { terminated: true } }) ==> {
        let x = token_text(src, t);
        x.len() >= 2 && is_ascii_char(x[0]) && is_ascii_char(x[x.len() - 1])
    })
}

/// Every token points at a piece of the source as `token_ok` says.
pub open spec fn tokens_ok(src: Seq<char>, ts: Seq<TokenView>) -> bool {
    forall|i: int| 0 <= i < ts.len() ==> token_ok(src, #[trigger] ts[i])
}

/// Whether every token points at a piece of `source` as `tokens_ok` says:
/// the tokens that the lexer gives for a source can be checked with this
/// before they are parsed.
pub fn check_tokens(source: &str, tokens: &[Token]) -> (b: bool)
    requires
        utf8_len(source@) < usize::MAX,
    ensures
        b == tokens_ok(source@, views(tokens@)),
{
    let cs = chars_of(source);
    let offs = byte_offsets(&cs);
    let table = boundary_table(&cs, &offs);
    let n = cs.len();
    proof {
        assert(cs@.take(n as int) =~= cs@);
    }
    let total = offs[n];
    let mut i: usize = 0;
    while i < tokens.len()
        invariant
            i <= tokens@.len(),
            cs@ == source@,
            n == cs@.len(),
            total == utf8_len(source@),
            total < usize::MAX,
            table@.len() == total + 1,
            forall|b: int| 0 <= b <= total ==> (#[trigger] table@[b] != 0 <==> is_boundary(source@, b)),
            forall|b: int| 0 <= b <= total && #[trigger] table@[b] != 0 ==> table@[b] - 1 == char_index(source@, b),
            forall|j: int| 0 <= j < i ==> token_ok(source@, #[trigger] views(tokens@)[j]),
        decreases tokens@.len() - i,
    {
        let str_kind = TokenKind::Literal { kind: LiteralKind::Str { terminated: true } };
        let (off, len) = tokens[i].pos();
        let ghost t = views(tokens@)[i as int];
        proof {
            assert(t == tokens@[i as int]@);
        }
        if len == 0 || off > total || len > total - off {
            return false;
        }
        if table[off] == 0 || table[off + len] == 0 {
            return false;
        }
        if tokens[i].kind() == str_kind {
            let i0 = table[off] - 1;
            let i1 = table[off + len] - 1;
            proof {
                lemma_char_index_bounds(source@, off as int, len as int);
                assert(token_text(source@, t) =~= source@.subrange(i0 as int, i1 as int));
            }
            if i1 - i0 < 2 {
                return false;
            }
            if !((cs[i0] as u32) < 0x80 && (cs[i1 - 1] as u32) < 0x80) {
                proof {
                    assert(!token_ok(source@, t));
                }
                return false;
            }
        }
        proof {
            assert(token_ok(source@, t));
        }
        i = i + 1;
    }
    true
}

/// The characters of the items of an unescaped string, or its first error.
pub open spec fn items_chars(items: Seq<SpecItem<char>>) -> Result<Seq<char>, EscapeError>
    decreases items.len(),
{
    if items.len() == 0 {
        Ok(seq![])
    } else {
        match items[0].2 {
            Err(e) => Err(e),
            Ok(c) => match items_chars(items.skip(1)) {
                Ok(cs) => Ok(seq![c] + cs),
                Err(e) => Err(e),
            },
        }
    }
}

/// A literal token whose text is `text`, read as an expression.
pub open spec fn spec_parse_literal(kind: LiteralKind, text: Seq<char>) -> Result<ExprView, Seq<char>> {
    match kind {
        LiteralKind::Int { base, empty_int } => if empty_int {
            Ok(ExprView::Number(NumberView::Discrete(0)))
        } else {
            match spec_i128_from_str_radix(text, base.spec_radix() as nat) {
                Some(n) => Ok(ExprView::Number(NumberView::Discrete(n))),
                None => Err("literal: Failed to parse Integer."@),
            }
        },
        LiteralKind::Float { base, .. } => if base != Base::Decimal {
            Err("literal: Can only parse floats as decimal."@)
        } else if is_float_text(text) {
            Ok(ExprView::Number(NumberView::Float(text)))
        } else {
            Err("literal: Failed to parse float."@)
        },
        LiteralKind::Char { terminated } => if !terminated {
            Err("literal: Unterminated char quote."@)
        } else {
            match spec_unescape_char(text) {
                Ok(c) => Ok(ExprView::Char(c)),
                Err(e) => Err("literal: failed to unescape char-string: "@ + e.spec_name()),
            }
        },
        LiteralKind::Str { terminated } => if !terminated {
            Err("literal: Unterminated string quote."@)
        } else {
            let inner = text.subrange(1, text.len() - 1);
            match items_chars(spec_unescape_unicode(inner, Mode::Str)) {
                Ok(cs) => Ok(ExprView::Str(cs)),
                Err(e) => Err("literal: failed to unescape string: "@ + e.spec_name()),
            }
        },
    }
}

/// A single token read as an expression.
pub open spec fn spec_parse_atom(src: Seq<char>, t: TokenView) -> Result<ExprView, Seq<char>> {
    let text = token_text(src, t);
    match t.kind {
        TokenKind::Nil => Ok(ExprView::Nil),
        TokenKind::True => Ok(ExprView::Bool(true)),
        TokenKind::False => Ok(ExprView::Bool(false)),
        TokenKind::Literal { kind } => spec_parse_literal(kind, text),
        _ => Ok(ExprView::Ident(text)),
    }
}

/// The parameters of a function: atoms up to the first `{` (or the end).
pub open spec fn spec_fn_params(src: Seq<char>, ts: Seq<TokenView>) -> Result<(Seq<ExprView>, Seq<TokenView>), Seq<char>>
    decreases ts.len(),
{
    if ts.len() == 0 || ts[0].kind == TokenKind::OpenBrace {
        Ok((seq![], ts))
    } else {
        match spec_parse_atom(src, ts[0]) {
            Err(e) => Err(e),
            Ok(p) => match spec_fn_params(src, ts.skip(1)) {
                Err(e) => Err(e),
                Ok((ps, rest)) => Ok((seq![p] + ps, rest)),
            },
        }
    }
}

// ---------------------------------------------------------------------------
// The grammar of expressions.
//
// Each function reads from the tokens `ts` and gives the expression and the
// tokens that follow it, or the reason of the error. A piece that is read
// before the rest is always shorter than what it was read from; the guards
// that say so are never taken, since the parser, which has no such branch,
// is proved to agree with these functions (see `Parser::parse`).
// ---------------------------------------------------------------------------

/// The outcome of a piece of the parser.
pub type ParseOutcome = Result<(ExprView, Seq<TokenView>), Seq<char>>;

/// An expression whose operators bind tighter than `min`.
pub open spec fn spec_parse_expr(src: Seq<char>, ts: Seq<TokenView>, min: nat) -> ParseOutcome
    decreases ts.len(), 1nat,
{
    if ts.len() == 0 {
        Err("empty expression"@)
    } else {
        match spec_parse_prefix(src, ts) {
            Err(e) => Err(e),
            Ok((left, rest)) => if rest.len() < ts.len() {
                spec_infix_loop(src, left, rest, min)
            } else {
                Err(seq![])
            },
        }
    }
}

/// Infix operators that bind tighter than `min`, after `left`.
pub open spec fn spec_infix_loop(src: Seq<char>, left: ExprView, rest: Seq<TokenView>, min: nat) -> ParseOutcome
    decreases rest.len(), 3nat,
{
    if rest.len() == 0 || spec_precedence(rest[0].kind).spec_lbp() <= min {
        spec_app_loop(src, left, rest)
    } else {
        let op = rest[0];
        match spec_parse_expr(src, rest.skip(1), spec_precedence(op.kind).spec_lbp()) {
            Err(e) => Err(e),
            Ok((right, next)) => if next.len() < rest.len() {
                spec_infix_loop(src, spec_desugar_infix(op.kind, left, right), next, min)
            } else {
                Err(seq![])
            },
        }
    }
}

/// Arguments applied to `left`, each one a call of the one before.
pub open spec fn spec_app_loop(src: Seq<char>, left: ExprView, rest: Seq<TokenView>) -> ParseOutcome
    decreases rest.len(), 2nat,
{
    if rest.len() == 0 || !spec_is_start_of_expr(rest[0].kind) {
        Ok((left, rest))
    } else {
        match spec_parse_expr(src, rest, Prec::Call.spec_lbp()) {
            Err(e) => Err(e),
            Ok((arg, next)) => if next.len() < rest.len() {
                spec_app_loop(src, ExprView::List(seq![left, arg]), next)
            } else {
                Err(seq![])
            },
        }
    }
}

/// The first form of an expression.
pub open spec fn spec_parse_prefix(src: Seq<char>, ts: Seq<TokenView>) -> ParseOutcome
    decreases ts.len(), 0nat,
{
    if ts.len() == 0 {
        Err("parse_prefix: unexpected end of input"@)
    } else {
        let tok = ts[0];
        let rest = ts.skip(1);
        match tok.kind {
            TokenKind::Let => spec_parse_let(src, rest),
            TokenKind::Fn => spec_parse_fn(src, rest),
            TokenKind::If => spec_parse_if(src, rest),
            TokenKind::Do => spec_parse_do(src, rest),
            TokenKind::OpenParen => spec_parse_closed(src, rest, TokenKind::CloseParen, "expected )"@),
            TokenKind::OpenBrace => spec_parse_closed(src, rest, TokenKind::CloseBrace, "expected }"@),
            _ => match spec_parse_atom(src, tok) {
                Ok(e) => Ok((e, rest)),
                Err(e) => Err(e),
            },
        }
    }
}

/// `let name = value`, after `let`.
pub open spec fn spec_parse_let(src: Seq<char>, ts: Seq<TokenView>) -> ParseOutcome
    decreases ts.len(), 0nat,
{
    if ts.len() == 0 {
        Err("let: expected name"@)
    } else {
        match spec_parse_atom(src, ts[0]) {
            Err(e) => Err(e),
            Ok(name) => if ts.len() < 2 || ts[1].kind != TokenKind::Equals {
                Err("let: expected ="@)
            } else {
                match spec_parse_expr(src, ts.skip(2), 0) {
                    Err(e) => Err(e),
                    Ok((value, rest)) => Ok((ExprView::List(seq![ExprView::Ident("let"@), name, value]), rest)),
                }
            },
        }
    }
}

/// `fn params { body }`, after `fn`.
pub open spec fn spec_parse_fn(src: Seq<char>, ts: Seq<TokenView>) -> ParseOutcome
    decreases ts.len(), 0nat,
{
    match spec_fn_params(src, ts) {
        Err(e) => Err(e),
        Ok((params, rest)) => if rest.len() == 0 || rest[0].kind != TokenKind::OpenBrace || rest.len() > ts.len() {
            Err("fn: expected {"@)
        } else {
            match spec_parse_expr(src, rest.skip(1), 0) {
                Err(e) => Err(e),
                Ok((body, after)) => if after.len() == 0 || after[0].kind != TokenKind::CloseBrace {
                    Err("fn: expected }"@)
                } else {
                    Ok((ExprView::List(seq![ExprView::Ident("fn"@), ExprView::List(params), body]), after.skip(1)))
                },
            }
        },
    }
}

/// `if test then branch [else branch]`, after `if`.
pub open spec fn spec_parse_if(src: Seq<char>, ts: Seq<TokenView>) -> ParseOutcome
    decreases ts.len(), 2nat,
{
    match spec_parse_expr(src, ts, 0) {
        Err(e) => Err(e),
        Ok((test, rest)) => if rest.len() == 0 || rest[0].kind != TokenKind::Then {
            Err("if: expected 'then'"@)
        } else if rest.len() > ts.len() {
            Err(seq![])
        } else {
            match spec_parse_expr(src, rest.skip(1), 0) {
                Err(e) => Err(e),
                Ok((then_branch, rest2)) => if rest2.len() > 0 && rest2[0].kind == TokenKind::Else && rest2.len() <= ts.len() {
                    match spec_parse_expr(src, rest2.skip(1), 0) {
                        Err(e) => Err(e),
                        Ok((else_branch, rest3)) => Ok((ExprView::List(seq![ExprView::Ident("if"@), test, then_branch, else_branch]), rest3)),
                    }
                } else {
                    Ok((ExprView::List(seq![ExprView::Ident("if"@), test, then_branch, ExprView::Nil]), rest2))
                },
            }
        },
    }
}

/// `do { body }` or `do ... )`, after `do`.
pub open spec fn spec_parse_do(src: Seq<char>, ts: Seq<TokenView>) -> ParseOutcome
    decreases ts.len(), 3nat,
{
    if ts.len() == 0 {
        Err("do: expected { or list"@)
    } else if ts[0].kind == TokenKind::OpenBrace {
        match spec_parse_expr(src, ts.skip(1), 0) {
            Err(e) => Err(e),
            Ok((body, rest)) => if rest.len() == 0 || rest[0].kind != TokenKind::CloseBrace {
                Err("do: expected }"@)
            } else {
                Ok((body, rest.skip(1)))
            },
        }
    } else {
        spec_read_seq(src, seq![], ts)
    }
}

/// The forms of a sequence up to its closing `)`, after `items`.
pub open spec fn spec_read_seq(src: Seq<char>, items: Seq<ExprView>, ts: Seq<TokenView>) -> ParseOutcome
    decreases ts.len(), 2nat,
{
    if ts.len() == 0 {
        Err("seq: Could not find closing `)`."@)
    } else if ts[0].kind == TokenKind::CloseParen {
        Ok((ExprView::List(items), ts.skip(1)))
    } else if ts[0].kind == TokenKind::WhiteSpace || ts[0].kind == TokenKind::Newline {
        spec_read_seq(src, items, ts.skip(1))
    } else {
        match spec_parse_expr(src, ts, 0) {
            Err(e) => Err(e),
            Ok((item, rest)) => if rest.len() < ts.len() {
                spec_read_seq(src, items.push(item), rest)
            } else {
                Err(seq![])
            },
        }
    }
}

/// An expression followed by the token `close`, after the opening token.
pub open spec fn spec_parse_closed(src: Seq<char>, ts: Seq<TokenView>, close: TokenKind, reason: Seq<char>) -> ParseOutcome
    decreases ts.len(), 2nat,
{
    match spec_parse_expr(src, ts, 0) {
        Err(e) => Err(e),
        Ok((e, rest)) => if rest.len() == 0 || rest[0].kind != close {
            Err(reason)
        } else {
            Ok((e, rest.skip(1)))
        },
    }
}

/// What `Parser::parse` gives for the tokens `ts` of the source `src`.
pub open spec fn spec_parse(src: Seq<char>, ts: Seq<TokenView>) -> ParseOutcome {
    spec_parse_expr(src, ts, 0)
}

// ---------------------------------------------------------------------------
// The parser.
// ---------------------------------------------------------------------------

/// What a piece of the parser gave, read as plain values.
pub open spec fn outcome_of<'tk>(r: Result<(Expr, &'tk [Token]), Error>) -> ParseOutcome {
    match r {
        Ok((e, rest)) => Ok((e@, views(rest@))),
        Err(er) => Err(er.spec_reason()),
    }
}

/// `rest` is what is left of `ts` after at least one token.
pub open spec fn is_suffix(rest: Seq<Token>, ts: Seq<Token>) -> bool {
    rest.len() < ts.len() && rest == ts.skip(ts.len() - rest.len())
}

/// The views of the tokens after the first `k` are those of all tokens after the first `k`.
pub proof fn lemma_views_skip(ts: Seq<Token>, k: int)
    requires
        0 <= k <= ts.len(),
    ensures
        views(ts.skip(k)) == views(ts).skip(k),
{
    assert(views(ts.skip(k)) =~= views(ts).skip(k));
}

/// The tokens after the first `k` point into the source as all of them do.
pub proof fn lemma_tokens_ok_skip(src: Seq<char>, ts: Seq<TokenView>, k: int)
    requires
        0 <= k <= ts.len(),
        tokens_ok(src, ts),
    ensures
        tokens_ok(src, ts.skip(k)),
{
    assert forall|i: int| 0 <= i < ts.skip(k).len() implies token_ok(src, #[trigger] ts.skip(k)[i]) by {
        assert(ts.skip(k)[i] == ts[i + k]);
    }
}

proof fn lemma_suffix_trans(a: Seq<Token>, b: Seq<Token>, c: Seq<Token>)
    requires
        is_suffix(a, b),
        is_suffix(b, c),
    ensures
        is_suffix(a, c),
{
    assert(a =~= c.skip(c.len() - a.len()));
}

/// The tokens after the first one.
fn tail<'tk>(ts: &'tk [Token]) -> (r: &'tk [Token])
    requires
        ts@.len() > 0,
    ensures
        r@ == ts@.skip(1),
        views(r@) == views(ts@).skip(1),
        is_suffix(r@, ts@),
{
    let (_, r) = ts.split_at(1);
    proof {
        assert(r@ =~= ts@.skip(1));
        lemma_views_skip(ts@, 1);
    }
    r
}

/// The binding power class of a token kind when it stands between two operands.
fn precedence(kind: TokenKind) -> (p: Prec)
    ensures
        p == spec_precedence(kind),
{
    match kind {
        TokenKind::EqEq => Prec::Equality,
        TokenKind::Equals => Prec::Assign,
        TokenKind::Lt | TokenKind::LtEq | TokenKind::Gt | TokenKind::GtEq | TokenKind::NotEq => Prec::Compare,
        TokenKind::Plus | TokenKind::Minus => Prec::AddSub,
        TokenKind::Mul | TokenKind::Div => Prec::MulDiv,
        TokenKind::Power => Prec::Power,
        _ => Prec::Lowest,
    }
}

/// `left op right` as the list `(name left right)`.
fn desugar_infix(op: &Token, left: Expr, right: Expr) -> (e: Expr)
    ensures
        e@ == spec_desugar_infix(op@.kind, left@, right@),
{
    let name = match op.kind() {
        TokenKind::Plus => "+",
        TokenKind::Minus => "-",
        TokenKind::Mul => "*",
        TokenKind::Div => "/",
        TokenKind::Power => "^",
        TokenKind::EqEq => "=",
        TokenKind::GtEq => ">=",
        TokenKind::Gt => ">",
        TokenKind::LtEq => "<=",
        TokenKind::Lt => "<",
        TokenKind::NotEq => "!=",
        TokenKind::Not => "!",
        _ => "unknown_op",
    };
    list3(Expr::Ident(name.to_owned()), left, right)
}

/// Appends `e` to `v`, keeping track of the view.
fn push_expr(v: &mut Vec<Expr>, e: Expr)
    ensures
        exprs_view(final(v)@) == exprs_view(old(v)@).push(expr_view(e)),
        final(v)@ == old(v)@.push(e),
{
    proof {
        lemma_exprs_view_push(v@, e);
    }
    v.push(e);
}

/// The list of two expressions.
fn list2(a: Expr, b: Expr) -> (e: Expr)
    ensures
        e@ == ExprView::List(seq![a@, b@]),
{
    let mut v: Vec<Expr> = Vec::new();
    proof {
        assert(exprs_view(v@) =~= Seq::<ExprView>::empty());
    }
    push_expr(&mut v, a);
    push_expr(&mut v, b);
    proof {
        assert(exprs_view(v@) =~= seq![a@, b@]);
    }
    Expr::List(v)
}

/// The list of three expressions.
fn list3(a: Expr, b: Expr, c: Expr) -> (e: Expr)
    ensures
        e@ == ExprView::List(seq![a@, b@, c@]),
{
    let mut v: Vec<Expr> = Vec::new();
    proof {
        assert(exprs_view(v@) =~= Seq::<ExprView>::empty());
    }
    push_expr(&mut v, a);
    push_expr(&mut v, b);
    push_expr(&mut v, c);
    proof {
        assert(exprs_view(v@) =~= seq![a@, b@, c@]);
    }
    Expr::List(v)
}

/// The list of four expressions.
fn list4(a: Expr, b: Expr, c: Expr, d: Expr) -> (e: Expr)
    ensures
        e@ == ExprView::List(seq![a@, b@, c@, d@]),
{
    let mut v: Vec<Expr> = Vec::new();
    proof {
        assert(exprs_view(v@) =~= Seq::<ExprView>::empty());
    }
    push_expr(&mut v, a);
    push_expr(&mut v, b);
    push_expr(&mut v, c);
    push_expr(&mut v, d);
    proof {
        assert(exprs_view(v@) =~= seq![a@, b@, c@, d@]);
    }
    Expr::List(v)
}

/// The characters of the items of an unescaped string, or its first error.
fn collect_chars(items: &Vec<(std::ops::Range<usize>, Result<char, EscapeError>)>) -> (r: Result<Vec<char>, EscapeError>)
    ensures
        match r {
            Ok(v) => items_chars(items@.map_values(|x: (std::ops::Range<usize>, Result<char, EscapeError>)| item_view(x))) == Ok::<Seq<char>, EscapeError>(v@),
            Err(e) => items_chars(items@.map_values(|x: (std::ops::Range<usize>, Result<char, EscapeError>)| item_view(x))) == Err::<Seq<char>, EscapeError>(e),
        },
{
    let ghost spec_items = items@.map_values(|x: (std::ops::Range<usize>, Result<char, EscapeError>)| item_view(x));
    let mut buf: Vec<char> = Vec::new();
    let mut k: usize = 0;
    proof {
        assert(spec_items.skip(0) =~= spec_items);
        assert(buf@ + Seq::<char>::empty() =~= buf@);
    }
    while k < items.len()
        invariant
            k <= items.len(),
            spec_items == items@.map_values(|x: (std::ops::Range<usize>, Result<char, EscapeError>)| item_view(x)),
            items_chars(spec_items) == match items_chars(spec_items.skip(k as int)) {
                Ok(cs) => Ok(buf@ + cs),
                Err(e) => Err::<Seq<char>, EscapeError>(e),
            },
        decreases items.len() - k,
    {
        let ghost rest = spec_items.skip(k as int);
        proof {
            assert(rest[0] == item_view(items@[k as int]));
            assert(rest.skip(1) =~= spec_items.skip(k + 1));
        }
        match items[k].1 {
            Ok(c) => {
                let ghost old_buf = buf@;
                buf.push(c);
                proof {
                    match items_chars(rest.skip(1)) {
                        Ok(cs) => {
                            assert(buf@ + cs =~= old_buf + (seq![c] + cs));
                        },
                        Err(_) => {},
                    }
                }
            },
            Err(e) => {
                return Err(e);
            },
        }
        k = k + 1;
    }
    proof {
        assert(spec_items.skip(k as int) =~= Seq::<SpecItem<char>>::empty());
        assert(buf@ + Seq::<char>::empty() =~= buf@);
    }
    Ok(buf)
}

/// The expression of a character.
fn char_expr(c: char) -> (e: Expr)
    ensures
        e@ == ExprView::Char(c),
{
    Expr::Char(c)
}

/// Reads tokens into expressions; the tokens point into `source`.
pub struct Parser<'src> {
    source: &'src str,
}

impl<'src> Parser<'src> {
    /// The source that the tokens point into.
    pub closed spec fn src(&self) -> Seq<char> {
        self.source@
    }

    /// A parser of tokens that point into `source`.
    pub fn new(source: &'src str) -> (p: Parser<'src>)
        ensures
            p.src() == source@,
    {
        Parser { source }
    }

    /// Reads one expression from the front of `tokens`, and returns it
    /// with the tokens that follow it.
    pub fn parse<'tk>(&mut self, tokens: &'tk [Token]) -> (r: Result<(Expr, &'tk [Token]), Error>)
        requires
            tokens_ok(old(self).src(), views(tokens@)),
        ensures
            *final(self) == *old(self),
            outcome_of(r) == spec_parse(old(self).src(), views(tokens@)),
            r matches Ok((_, rest)) ==> is_suffix(rest@, tokens@),
    {
        self.parse_expr(tokens, Prec::Lowest)
    }

    /// The names of a parameter list such as `(a b c)`.
    pub fn parse_list_of_symbol_strings(form: Rc<Expr>) -> (r: Result<Vec<String>, Error>)
        ensures
            match r {
                Ok(v) => spec_symbol_strings(form@) == Ok::<Seq<Seq<char>>, Seq<char>>(
                    v@.map_values(|s: String| s@),
                ),
                Err(e) => spec_symbol_strings(form@) == Err::<Seq<Seq<char>>, Seq<char>>(e.spec_reason()),
            },
    {
        let items: &Vec<Expr> = match &*form {
            Expr::List(l) => l,
            _ => return Err(Error::reason("Expected args form to be a list.")),
        };
        let ghost iv = exprs_view(items@);
        proof {
            lemma_exprs_view_len(items@);
            assert(form@ == ExprView::List(iv));
        }
        let mut names: Vec<String> = Vec::new();
        let mut k: usize = 0;
        while k < items.len()
            invariant
                k <= items.len(),
                iv == exprs_view(items@),
                form@ == ExprView::List(iv),
                iv.len() == items@.len(),
                names@.len() == k,
                forall|j: int| 0 <= j < k ==> (#[trigger] iv[j]) is Ident && names@[j]@ == ident_name(iv[j]),
            decreases items.len() - k,
        {
            proof {
                lemma_exprs_view_index(items@, k as int);
            }
            match &items[k] {
                Expr::Ident(s) => {
                    names.push(s.clone());
                },
                _ => {
                    proof {
                        assert(!(iv[k as int] is Ident));
                    }
                    return Err(Error::reason("Expected identifiers in the argument list."));
                },
            }
            k = k + 1;
        }
        proof {
            assert(names@.map_values(|s: String| s@) =~= iv.map_values(|x: ExprView| ident_name(x)));
        }
        Ok(names)
    }

    /// Whether a token can start an expression (an argument of a call).
    fn is_start_of_expr(&self, tok: &Token) -> (b: bool)
        ensures
            b == spec_is_start_of_expr(tok@.kind),
    {
        match tok.kind() {
            TokenKind::Ident | TokenKind::Literal { .. } | TokenKind::OpenParen | TokenKind::OpenBrace
            | TokenKind::Fn | TokenKind::If | TokenKind::Let => true,
            _ => false,
        }
    }

    /// A literal token whose text is `substr`, read as an expression.
    fn parse_literal(&self, kind: LiteralKind, substr: &str) -> (r: Result<Expr, Error>)
        requires
            utf8_len(substr@) <= usize::MAX,
            kind == (LiteralKind::Str { terminated: true }) ==> substr@.len() >= 2 && is_ascii_char(substr@[0])
                && is_ascii_char(substr@[substr@.len() - 1]),
        ensures
            match r {
                Ok(e) => spec_parse_literal(kind, substr@) == Ok::<ExprView, Seq<char>>(e@),
                Err(er) => spec_parse_literal(kind, substr@) == Err::<ExprView, Seq<char>>(er.spec_reason()),
            },
    {
        match kind {
            LiteralKind::Int { base, empty_int } => {
                if empty_int {
                    let e = Expr::Number(Number::Discrete(0));
                    assert(spec_parse_literal(kind, substr@) == Ok::<ExprView, Seq<char>>(e@));
                    return Ok(e);
                }
                match i128_from_str_radix(substr, base.radix()) {
                    Some(n) => {
                        let e = Expr::Number(Number::Discrete(n));
                        assert(spec_parse_literal(kind, substr@) == Ok::<ExprView, Seq<char>>(e@));
                        Ok(e)
                    },
                    None => Err(Error::reason("literal: Failed to parse Integer.")),
                }
            },
            LiteralKind::Float { base, .. } => {
                if base != Base::Decimal {
                    return Err(Error::reason("literal: Can only parse floats as decimal."));
                }
                if is_float_literal(substr) {
                    let e = Expr::Number(Number::Float(substr.to_owned()));
                    assert(spec_parse_literal(kind, substr@) == Ok::<ExprView, Seq<char>>(e@));
                    return Ok(e);
                }
                Err(Error::reason("literal: Failed to parse float."))
            },
            LiteralKind::Char { terminated } => {
                if !terminated {
                    return Err(Error::reason("literal: Unterminated char quote."));
                }
                match unescape_char(substr) {
                    Ok(c) => {
                        let e = char_expr(c);
                        assert(spec_unescape_char(substr@) == Ok::<char, EscapeError>(c));
                        assert(spec_parse_literal(kind, substr@) == Ok::<ExprView, Seq<char>>(e@));
                        Ok(e)
                    },
                    Err(e) => Err(Error::Reason(concat("literal: failed to unescape char-string: ", e.name()))),
                }
            },
            LiteralKind::Str { terminated } => {
                if !terminated {
                    return Err(Error::reason("literal: Unterminated string quote."));
                }
                let n = substr.unicode_len();
                let inner = substr.substring_char(1, n - 1);
                proof {
                    lemma_utf8_len_subrange(substr@, 1, n - 1);
                }
                let items = unescape_unicode(inner, Mode::Str);
                match collect_chars(&items) {
                    Ok(buf) => {
                        let e = Expr::String(string_of(&buf));
                        assert(spec_parse_literal(kind, substr@) == Ok::<ExprView, Seq<char>>(e@));
                        Ok(e)
                    },
                    Err(e) => Err(Error::Reason(concat("literal: failed to unescape string: ", e.name()))),
                }
            },
        }
    }
}

impl<'src> Parser<'src> {
    /// A single token read as an expression.
    fn parse_atom(&self, token: &Token) -> (r: Result<Expr, Error>)
        requires
            token_ok(self.source@, token@),
        ensures
            match r {
                Ok(e) => spec_parse_atom(self.source@, token@) == Ok::<ExprView, Seq<char>>(e@),
                Err(er) => spec_parse_atom(self.source@, token@) == Err::<ExprView, Seq<char>>(er.spec_reason()),
            },
    {
        let (start, len) = token.pos();
        let substr = self.source.substr(start, len).unwrap();
        match token.kind() {
            TokenKind::Nil => Ok(Expr::Nil),
            TokenKind::True => Ok(Expr::Bool(true)),
            TokenKind::False => Ok(Expr::Bool(false)),
            TokenKind::Literal { kind } => {
                proof {
                    let x = substr@;
                    let src = self.source@;
                    let a = crate::str_ext::char_index(src, start as int);
                    let b = crate::str_ext::char_index(src, start + len);
                    assert(x == src.subrange(a, b));
                    crate::str_ext::lemma_char_index_bounds(src, start as int, len as int);
                    lemma_utf8_len_subrange(src, a, b);
                }
                self.parse_literal(kind, substr)
            },
            _ => Ok(Expr::Ident(substr.to_owned())),
        }
    }

    /// An expression whose operators bind tighter than `min_prec`.
    fn parse_expr<'tk>(&self, tokens: &'tk [Token], min_prec: Prec) -> (r: Result<(Expr, &'tk [Token]), Error>)
        requires
            tokens_ok(self.source@, views(tokens@)),
        ensures
            outcome_of(r) == spec_parse_expr(self.source@, views(tokens@), min_prec.spec_lbp()),
            r matches Ok((_, rest)) ==> is_suffix(rest@, tokens@),
        decreases tokens@.len(), 1nat,
    {
        if tokens.len() == 0 {
            return Err(Error::reason("empty expression"));
        }
        let ghost src = self.source@;
        let ghost min = min_prec.spec_lbp();
        let ghost target = spec_parse_expr(src, views(tokens@), min);
        let (mut left, mut rest) = match self.parse_prefix(tokens) {
            Ok(p) => p,
            Err(e) => return Err(e),
        };
        loop
            invariant
                is_suffix(rest@, tokens@),
                tokens_ok(src, views(tokens@)),
                src == self.source@,
                min == min_prec.spec_lbp(),
                target == spec_parse_expr(src, views(tokens@), min),
                spec_infix_loop(src, left@, views(rest@), min) == target,
            ensures
                is_suffix(rest@, tokens@),
                spec_app_loop(src, left@, views(rest@)) == target,
            decreases rest@.len(),
        {
            if rest.len() == 0 {
                break;
            }
            let op = &rest[0];
            proof {
                assert(views(rest@)[0] == op@);
            }
            let op_prec = precedence(op.kind());
            if op_prec.lbp() <= min_prec.lbp() {
                break;
            }
            let after_op = tail(rest);
            proof {
                lemma_suffix_trans(after_op@, rest@, tokens@);
                lemma_views_skip(tokens@, tokens@.len() - after_op@.len());
                lemma_tokens_ok_skip(src, views(tokens@), tokens@.len() - after_op@.len());
            }
            let (right, new_rest) = match self.parse_expr(after_op, op_prec) {
                Ok(p) => p,
                Err(e) => return Err(e),
            };
            proof {
                lemma_suffix_trans(new_rest@, after_op@, tokens@);
            }
            left = desugar_infix(op, left, right);
            rest = new_rest;
        }
        loop
            invariant
                is_suffix(rest@, tokens@),
                tokens_ok(src, views(tokens@)),
                src == self.source@,
                min == min_prec.spec_lbp(),
                target == spec_parse_expr(src, views(tokens@), min),
                spec_app_loop(src, left@, views(rest@)) == target,
            ensures
                is_suffix(rest@, tokens@),
                Ok::<(ExprView, Seq<TokenView>), Seq<char>>((left@, views(rest@))) == target,
            decreases rest@.len(),
        {
            if rest.len() == 0 {
                break;
            }
            proof {
                assert(views(rest@)[0] == rest@[0]@);
            }
            if !self.is_start_of_expr(&rest[0]) {
                break;
            }
            proof {
                lemma_views_skip(tokens@, tokens@.len() - rest@.len());
                lemma_tokens_ok_skip(src, views(tokens@), tokens@.len() - rest@.len());
            }
            let (arg, new_rest) = match self.parse_expr(rest, Prec::Call) {
                Ok(p) => p,
                Err(e) => return Err(e),
            };
            proof {
                lemma_suffix_trans(new_rest@, rest@, tokens@);
            }
            left = list2(left, arg);
            rest = new_rest;
        }
        Ok((left, rest))
    }

    /// The first form of an expression.
    fn parse_prefix<'tk>(&self, tokens: &'tk [Token]) -> (r: Result<(Expr, &'tk [Token]), Error>)
        requires
            tokens_ok(self.source@, views(tokens@)),
        ensures
            outcome_of(r) == spec_parse_prefix(self.source@, views(tokens@)),
            r matches Ok((_, rest)) ==> is_suffix(rest@, tokens@),
        decreases tokens@.len(), 0nat,
    {
        if tokens.len() == 0 {
            return Err(Error::reason("parse_prefix: unexpected end of input"));
        }
        let tok = &tokens[0];
        let rest = tail(tokens);
        proof {
            lemma_tokens_ok_skip(self.source@, views(tokens@), 1);
            assert(views(tokens@)[0] == tok@);
        }
        let r = match tok.kind() {
            TokenKind::Let => self.parse_let(rest),
            TokenKind::Fn => self.parse_fn(rest),
            TokenKind::If => self.parse_if(rest),
            TokenKind::Do => self.parse_do(rest),
            TokenKind::OpenParen => self.parse_grouped(rest),
            TokenKind::OpenBrace => self.parse_block(rest),
            _ => {
                return match self.parse_atom(tok) {
                    Ok(e) => Ok((e, rest)),
                    Err(e) => Err(e),
                };
            },
        };
        proof {
            if let Ok((_, rr)) = r {
                lemma_suffix_trans(rr@, rest@, tokens@);
            }
        }
        r
    }

    /// `let name = value`, after `let`.
    fn parse_let<'tk>(&self, tokens: &'tk [Token]) -> (r: Result<(Expr, &'tk [Token]), Error>)
        requires
            tokens_ok(self.source@, views(tokens@)),
        ensures
            outcome_of(r) == spec_parse_let(self.source@, views(tokens@)),
            r matches Ok((_, rest)) ==> is_suffix(rest@, tokens@),
        decreases tokens@.len(), 0nat,
    {
        if tokens.len() == 0 {
            return Err(Error::reason("let: expected name"));
        }
        proof {
            assert(views(tokens@)[0] == tokens@[0]@);
        }
        let name = match self.parse_atom(&tokens[0]) {
            Ok(e) => e,
            Err(e) => return Err(e),
        };
        let rest = tail(tokens);
        if rest.len() == 0 {
            return Err(Error::reason("let: expected ="));
        }
        proof {
            assert(views(tokens@)[1] == rest@[0]@);
        }
        if rest[0].kind() != TokenKind::Equals {
            return Err(Error::reason("let: expected ="));
        }
        let rest1 = tail(rest);
        proof {
            lemma_suffix_trans(rest1@, rest@, tokens@);
        }
        let rest = rest1;
        proof {
            assert(views(tokens@).skip(2) =~= views(rest@));
            lemma_tokens_ok_skip(self.source@, views(tokens@), 2);
        }
        let (value, rest2) = match self.parse_expr(rest, Prec::Lowest) {
            Ok(p) => p,
            Err(e) => return Err(e),
        };
        proof {
            lemma_suffix_trans(rest2@, rest@, tokens@);
        }
        Ok((list3(Expr::Ident("let".to_owned()), name, value), rest2))
    }

    /// The parameters of a function: atoms up to the first `{` (or the end).
    fn parse_params<'tk>(&self, tokens: &'tk [Token]) -> (r: Result<(Vec<Expr>, &'tk [Token]), Error>)
        requires
            tokens_ok(self.source@, views(tokens@)),
        ensures
            match r {
                Ok((ps, rest)) => spec_fn_params(self.source@, views(tokens@)) == Ok::<
                    (Seq<ExprView>, Seq<TokenView>),
                    Seq<char>,
                >((exprs_view(ps@), views(rest@))) && rest@ == tokens@.skip(tokens@.len() - rest@.len())
                    && rest@.len() <= tokens@.len(),
                Err(er) => spec_fn_params(self.source@, views(tokens@)) == Err::<
                    (Seq<ExprView>, Seq<TokenView>),
                    Seq<char>,
                >(er.spec_reason()),
            },
    {
        let ghost src = self.source@;
        let mut params: Vec<Expr> = Vec::new();
        let mut rest = tokens;
        proof {
            assert(tokens@.skip(0) =~= tokens@);
            assert(exprs_view(params@) =~= Seq::<ExprView>::empty());
        }
        while rest.len() > 0 && rest[0].kind() != TokenKind::OpenBrace
            invariant
                rest@ == tokens@.skip(tokens@.len() - rest@.len()),
                rest@.len() <= tokens@.len(),
                tokens_ok(src, views(tokens@)),
                src == self.source@,
                spec_fn_params(src, views(tokens@)) == match spec_fn_params(src, views(rest@)) {
                    Ok((ps, r2)) => Ok((exprs_view(params@) + ps, r2)),
                    Err(e) => Err::<(Seq<ExprView>, Seq<TokenView>), Seq<char>>(e),
                },
            decreases rest@.len(),
        {
            proof {
                lemma_views_skip(tokens@, tokens@.len() - rest@.len());
                lemma_tokens_ok_skip(src, views(tokens@), tokens@.len() - rest@.len());
                assert(views(rest@)[0] == rest@[0]@);
            }
            let param = match self.parse_atom(&rest[0]) {
                Ok(e) => e,
                Err(e) => return Err(e),
            };
            let ghost old_params = params@;
            params.push(param);
            let next = tail(rest);
            proof {
                lemma_exprs_view_push(old_params, param);
                match spec_fn_params(src, views(next@)) {
                    Ok((ps, r2)) => {
                        assert(exprs_view(params@) + ps =~= exprs_view(old_params) + (seq![param@] + ps));
                    },
                    Err(_) => {},
                }
                assert(next@ =~= tokens@.skip(tokens@.len() - next@.len()));
            }
            rest = next;
        }
        proof {
            assert(exprs_view(params@) + Seq::<ExprView>::empty() =~= exprs_view(params@));
        }
        Ok((params, rest))
    }

    /// `fn params { body }`, after `fn`.
    fn parse_fn<'tk>(&self, tokens: &'tk [Token]) -> (r: Result<(Expr, &'tk [Token]), Error>)
        requires
            tokens_ok(self.source@, views(tokens@)),
        ensures
            outcome_of(r) == spec_parse_fn(self.source@, views(tokens@)),
            r matches Ok((_, rest)) ==> is_suffix(rest@, tokens@),
        decreases tokens@.len(), 0nat,
    {
        let (params, rest) = match self.parse_params(tokens) {
            Ok(p) => p,
            Err(e) => return Err(e),
        };
        if rest.len() == 0 {
            return Err(Error::reason("fn: expected {"));
        }
        if rest[0].kind() != TokenKind::OpenBrace {
            return Err(Error::reason("fn: expected {"));
        }
        let body_tokens = tail(rest);
        proof {
            lemma_views_skip(tokens@, tokens@.len() - rest@.len());
            assert(body_tokens@ =~= tokens@.skip(tokens@.len() - body_tokens@.len()));
            lemma_views_skip(tokens@, tokens@.len() - body_tokens@.len());
            lemma_tokens_ok_skip(self.source@, views(tokens@), tokens@.len() - body_tokens@.len());
        }
        let (body, after) = match self.parse_expr(body_tokens, Prec::Lowest) {
            Ok(p) => p,
            Err(e) => return Err(e),
        };
        if after.len() == 0 {
            return Err(Error::reason("fn: expected }"));
        }
        proof {
            assert(views(after@)[0] == after@[0]@);
        }
        if after[0].kind() != TokenKind::CloseBrace {
            return Err(Error::reason("fn: expected }"));
        }
        let rest2 = tail(after);
        proof {
            lemma_suffix_trans(after@, body_tokens@, tokens@);
            lemma_suffix_trans(rest2@, after@, tokens@);
        }
        Ok((list3(Expr::Ident("fn".to_owned()), Expr::List(params), body), rest2))
    }

    /// `if test then branch [else branch]`, after `if`.
    fn parse_if<'tk>(&self, tokens: &'tk [Token]) -> (r: Result<(Expr, &'tk [Token]), Error>)
        requires
            tokens_ok(self.source@, views(tokens@)),
        ensures
            outcome_of(r) == spec_parse_if(self.source@, views(tokens@)),
            r matches Ok((_, rest)) ==> is_suffix(rest@, tokens@),
        decreases tokens@.len(), 2nat,
    {
        let ghost src = self.source@;
        let (test, rest) = match self.parse_expr(tokens, Prec::Lowest) {
            Ok(p) => p,
            Err(e) => return Err(e),
        };
        if rest.len() == 0 {
            return Err(Error::reason("if: expected 'then'"));
        }
        proof {
            assert(views(rest@)[0] == rest@[0]@);
        }
        if rest[0].kind() != TokenKind::Then {
            return Err(Error::reason("if: expected 'then'"));
        }
        let rest1 = tail(rest);
        proof {
            lemma_suffix_trans(rest1@, rest@, tokens@);
        }
        let rest = rest1;
        proof {
            lemma_views_skip(tokens@, tokens@.len() - rest@.len());
            lemma_tokens_ok_skip(src, views(tokens@), tokens@.len() - rest@.len());
        }
        let (then_branch, rest2) = match self.parse_expr(rest, Prec::Lowest) {
            Ok(p) => p,
            Err(e) => return Err(e),
        };
        proof {
            lemma_suffix_trans(rest2@, rest@, tokens@);
        }
        if rest2.len() > 0 && rest2[0].kind() == TokenKind::Else {
            proof {
                assert(views(rest2@)[0] == rest2@[0]@);
            }
            let rest3 = tail(rest2);
            proof {
                lemma_suffix_trans(rest3@, rest2@, tokens@);
                lemma_views_skip(tokens@, tokens@.len() - rest3@.len());
                lemma_tokens_ok_skip(src, views(tokens@), tokens@.len() - rest3@.len());
            }
            let (else_branch, rest4) = match self.parse_expr(rest3, Prec::Lowest) {
                Ok(p) => p,
                Err(e) => return Err(e),
            };
            proof {
                lemma_suffix_trans(rest4@, rest3@, tokens@);
            }
            Ok((list4(Expr::Ident("if".to_owned()), test, then_branch, else_branch), rest4))
        } else {
            proof {
                if rest2@.len() > 0 {
                    assert(views(rest2@)[0] == rest2@[0]@);
                }
            }
            Ok((list4(Expr::Ident("if".to_owned()), test, then_branch, Expr::Nil), rest2))
        }
    }

    /// `do { body }` or `do ... )`, after `do`.
    fn parse_do<'tk>(&self, tokens: &'tk [Token]) -> (r: Result<(Expr, &'tk [Token]), Error>)
        requires
            tokens_ok(self.source@, views(tokens@)),
        ensures
            outcome_of(r) == spec_parse_do(self.source@, views(tokens@)),
            r matches Ok((_, rest)) ==> is_suffix(rest@, tokens@),
        decreases tokens@.len(), 3nat,
    {
        if tokens.len() == 0 {
            return Err(Error::reason("do: expected { or list"));
        }
        proof {
            assert(views(tokens@)[0] == tokens@[0]@);
        }
        if tokens[0].kind() == TokenKind::OpenBrace {
            let rest = tail(tokens);
            proof {
                lemma_tokens_ok_skip(self.source@, views(tokens@), 1);
            }
            let (body, rest2) = match self.parse_expr(rest, Prec::Lowest) {
                Ok(p) => p,
                Err(e) => return Err(e),
            };
            if rest2.len() == 0 {
                return Err(Error::reason("do: expected }"));
            }
            proof {
                assert(views(rest2@)[0] == rest2@[0]@);
            }
            if rest2[0].kind() != TokenKind::CloseBrace {
                return Err(Error::reason("do: expected }"));
            }
            let rest3 = tail(rest2);
            proof {
                lemma_suffix_trans(rest2@, rest@, tokens@);
                lemma_suffix_trans(rest3@, rest2@, tokens@);
            }
            Ok((body, rest3))
        } else {
            self.read_seq(tokens)
        }
    }

    /// The forms of a sequence up to its closing `)`.
    fn read_seq<'tk>(&self, tokens: &'tk [Token]) -> (r: Result<(Expr, &'tk [Token]), Error>)
        requires
            tokens_ok(self.source@, views(tokens@)),
        ensures
            outcome_of(r) == spec_read_seq(self.source@, seq![], views(tokens@)),
            r matches Ok((_, rest)) ==> is_suffix(rest@, tokens@),
        decreases tokens@.len(), 2nat,
    {
        let ghost src = self.source@;
        let ghost target = spec_read_seq(src, seq![], views(tokens@));
        let mut list_items: Vec<Expr> = Vec::new();
        let mut excess = tokens;
        proof {
            assert(tokens@.skip(0) =~= tokens@);
            assert(exprs_view(list_items@) =~= Seq::<ExprView>::empty());
        }
        loop
            invariant
                excess@ == tokens@.skip(tokens@.len() - excess@.len()),
                excess@.len() <= tokens@.len(),
                tokens_ok(src, views(tokens@)),
                src == self.source@,
                target == spec_read_seq(src, seq![], views(tokens@)),
                spec_read_seq(src, exprs_view(list_items@), views(excess@)) == target,
            decreases excess@.len(),
        {
            proof {
                lemma_views_skip(tokens@, tokens@.len() - excess@.len());
                lemma_tokens_ok_skip(src, views(tokens@), tokens@.len() - excess@.len());
            }
            if excess.len() == 0 {
                return Err(Error::Reason("seq: Could not find closing `)`.".to_owned()));
            }
            proof {
                assert(views(excess@)[0] == excess@[0]@);
            }
            let kind = excess[0].kind();
            if kind == TokenKind::CloseParen {
                let rest = tail(excess);
                proof {
                    assert(rest@ =~= tokens@.skip(tokens@.len() - rest@.len()));
                }
                return Ok((Expr::List(list_items), rest));
            }
            if kind == TokenKind::WhiteSpace || kind == TokenKind::Newline {
                let next = tail(excess);
                proof {
                    assert(next@ =~= tokens@.skip(tokens@.len() - next@.len()));
                }
                excess = next;
                continue;
            }
            let (item, new_excess) = match self.parse_expr(excess, Prec::Lowest) {
                Ok(p) => p,
                Err(e) => return Err(e),
            };
            let ghost old_items = list_items@;
            list_items.push(item);
            proof {
                lemma_exprs_view_push(old_items, item);
                assert(new_excess@ =~= tokens@.skip(tokens@.len() - new_excess@.len()));
            }
            excess = new_excess;
        }
    }

    /// `( expr )`, after `(`.
    fn parse_grouped<'tk>(&self, tokens: &'tk [Token]) -> (r: Result<(Expr, &'tk [Token]), Error>)
        requires
            tokens_ok(self.source@, views(tokens@)),
        ensures
            outcome_of(r) == spec_parse_closed(self.source@, views(tokens@), TokenKind::CloseParen, "expected )"@),
            r matches Ok((_, rest)) ==> is_suffix(rest@, tokens@),
        decreases tokens@.len(), 2nat,
    {
        let (expr, rest) = match self.parse_expr(tokens, Prec::Lowest) {
            Ok(p) => p,
            Err(e) => return Err(e),
        };
        if rest.len() == 0 {
            return Err(Error::reason("expected )"));
        }
        proof {
            assert(views(rest@)[0] == rest@[0]@);
        }
        if rest[0].kind() != TokenKind::CloseParen {
            return Err(Error::reason("expected )"));
        }
        let rest2 = tail(rest);
        proof {
            lemma_suffix_trans(rest2@, rest@, tokens@);
        }
        Ok((expr, rest2))
    }

    /// `{ expr }`, after `{`.
    fn parse_block<'tk>(&self, tokens: &'tk [Token]) -> (r: Result<(Expr, &'tk [Token]), Error>)
        requires
            tokens_ok(self.source@, views(tokens@)),
        ensures
            outcome_of(r) == spec_parse_closed(self.source@, views(tokens@), TokenKind::CloseBrace, "expected }"@),
            r matches Ok((_, rest)) ==> is_suffix(rest@, tokens@),
        decreases tokens@.len(), 2nat,
    {
        let (expr, rest) = match self.parse_expr(tokens, Prec::Lowest) {
            Ok(p) => p,
            Err(e) => return Err(e),
        };
        if rest.len() == 0 {
            return Err(Error::reason("expected }"));
        }
        proof {
            assert(views(rest@)[0] == rest@[0]@);
        }
        if rest[0].kind() != TokenKind::CloseBrace {
            return Err(Error::reason("expected }"));
        }
        let rest2 = tail(rest);
        proof {
            lemma_suffix_trans(rest2@, rest@, tokens@);
        }
        Ok((expr, rest2))
    }
}

/// An infix call is named by its operator as written: where the lexer
/// reads an arithmetic or comparison operator (`+`, `-`, `*`, `/`, `^`,
/// `<`, `<=`, `>`, `>=` or `!=`) at character `t` of the source,
/// `left op right` is the call `(name left right)` of the function whose
/// name is that operator's text in the source.
pub proof fn lemma_infix_call_named_as_written(s: Seq<char>, t: int, left: ExprView, right: ExprView)
    requires
        0 <= t < s.len(),
        ({
            let k = spec_scan(s, t).0;
            k is Plus || k is Minus || k is Mul || k is Div || k is Power || k is Lt || k is LtEq || k is Gt
                || k is GtEq || k is NotEq
        }),
    ensures
        spec_desugar_infix(spec_scan(s, t).0, left, right) == ExprView::List(
            seq![ExprView::Ident(s.subrange(t, spec_scan(s, t).1)), left, right],
        ),
{
    let c = s[t];
    lemma_operators_read_whole(s, t);
    assert(c == '+' || c == '-' || c == '*' || c == '/' || c == '^' || c == '<' || c == '>' || c == '!');
    reveal_strlit("+");
    reveal_strlit("-");
    reveal_strlit("*");
    reveal_strlit("/");
    reveal_strlit("^");
    reveal_strlit("<");
    reveal_strlit("<=");
    reveal_strlit(">");
    reveal_strlit(">=");
    reveal_strlit("!=");
    let e = spec_scan(s, t).1;
    let n = peek(s, t + 1);
    if e == t + 1 {
        assert(s.subrange(t, e) =~= seq![c]);
    } else {
        assert(n == s[t + 1]);
        assert(s.subrange(t, e) =~= seq![c, n]);
    }
    let text = s.subrange(t, e);
    if c == '+' {
        assert("+"@ =~= text);
    } else if c == '-' {
        assert("-"@ =~= text);
    } else if c == '*' {
        assert("*"@ =~= text);
    } else if c == '/' {
        assert("/"@ =~= text);
    } else if c == '^' {
        assert("^"@ =~= text);
    } else if c == '<' {
        if n == '=' {
            assert("<="@ =~= text);
        } else {
            assert("<"@ =~= text);
        }
    } else if c == '>' {
        if n == '=' {
            assert(">="@ =~= text);
        } else {
            assert(">"@ =~= text);
        }
    } else {
        assert("!="@ =~= text);
    }
}

/// How tightly an arithmetic or comparison operator binds: comparisons
/// least, then `+` and `-`, then `*` and `/`, then `^`; 0 for a token that
/// is none of these.
pub open spec fn binding_rank(k: TokenKind) -> nat {
    if k is Lt || k is LtEq || k is Gt || k is GtEq || k is NotEq {
        1
    } else if k is Plus || k is Minus {
        2
    } else if k is Mul || k is Div {
        3
    } else if k is Power {
        4
    } else {
        0
    }
}

/// A token that stands for an operand by itself: a name or a literal that
/// reads as an expression.
pub open spec fn is_operand(src: Seq<char>, t: TokenView) -> bool {
    (t.kind is Ident || t.kind is Literal) && spec_parse_atom(src, t) is Ok
}

/// Infix operators group by how tightly they bind, and to the left among
/// equals: for operands `a`, `b`, `c` and operators `op1`, `op2`,
/// `a op1 b op2 c` reads as `a op1 (b op2 c)` where `op2` binds tighter
/// than `op1`, and as `(a op1 b) op2 c` otherwise.
pub proof fn lemma_infix_groups_by_precedence(
    src: Seq<char>,
    a: TokenView,
    op1: TokenView,
    b: TokenView,
    op2: TokenView,
    c: TokenView,
)
    requires
        is_operand(src, a),
        is_operand(src, b),
        is_operand(src, c),
        binding_rank(op1.kind) > 0,
        binding_rank(op2.kind) > 0,
    ensures
        ({
            let x = spec_parse_atom(src, a)->Ok_0;
            let y = spec_parse_atom(src, b)->Ok_0;
            let z = spec_parse_atom(src, c)->Ok_0;
            spec_parse(src, seq![a, op1, b, op2, c]) == Ok::<(ExprView, Seq<TokenView>), Seq<char>>((
                if binding_rank(op2.kind) > binding_rank(op1.kind) {
                    spec_desugar_infix(op1.kind, x, spec_desugar_infix(op2.kind, y, z))
                } else {
                    spec_desugar_infix(op2.kind, spec_desugar_infix(op1.kind, x, y), z)
                },
                seq![],
            ))
        }),
{
    let x = spec_parse_atom(src, a)->Ok_0;
    let y = spec_parse_atom(src, b)->Ok_0;
    let z = spec_parse_atom(src, c)->Ok_0;
    let ts = seq![a, op1, b, op2, c];
    let t1 = seq![op1, b, op2, c];
    let t2 = seq![b, op2, c];
    let t3 = seq![op2, c];
    let t4 = seq![c];
    let t5 = Seq::<TokenView>::empty();
    assert(ts.skip(1) =~= t1);
    assert(t1.skip(1) =~= t2);
    assert(t2.skip(1) =~= t3);
    assert(t3.skip(1) =~= t4);
    assert(t4.skip(1) =~= t5);
    let p1 = spec_precedence(op1.kind).spec_lbp();
    let p2 = spec_precedence(op2.kind).spec_lbp();
    assert(p1 > 0 && p2 > 0);
    assert(spec_parse_prefix(src, ts) == Ok::<(ExprView, Seq<TokenView>), Seq<char>>((x, t1)));
    assert(spec_parse_prefix(src, t2) == Ok::<(ExprView, Seq<TokenView>), Seq<char>>((y, t3)));
    assert(spec_parse_prefix(src, t4) == Ok::<(ExprView, Seq<TokenView>), Seq<char>>((z, t5)));
    assert(spec_app_loop(src, z, t5) == Ok::<(ExprView, Seq<TokenView>), Seq<char>>((z, t5)));
    assert(spec_parse_expr(src, t4, p2) == Ok::<(ExprView, Seq<TokenView>), Seq<char>>((z, t5)));
    if p2 > p1 {
        assert(binding_rank(op2.kind) > binding_rank(op1.kind));
        let yz = spec_desugar_infix(op2.kind, y, z);
        assert(spec_app_loop(src, yz, t5) == Ok::<(ExprView, Seq<TokenView>), Seq<char>>((yz, t5)));
        assert(spec_infix_loop(src, yz, t5, p1) == Ok::<(ExprView, Seq<TokenView>), Seq<char>>((yz, t5)));
        assert(spec_infix_loop(src, y, t3, p1) == Ok::<(ExprView, Seq<TokenView>), Seq<char>>((yz, t5)));
        assert(spec_parse_expr(src, t2, p1) == Ok::<(ExprView, Seq<TokenView>), Seq<char>>((yz, t5)));
        let all = spec_desugar_infix(op1.kind, x, yz);
        assert(spec_app_loop(src, all, t5) == Ok::<(ExprView, Seq<TokenView>), Seq<char>>((all, t5)));
        assert(spec_infix_loop(src, all, t5, 0) == Ok::<(ExprView, Seq<TokenView>), Seq<char>>((all, t5)));
        assert(spec_infix_loop(src, x, t1, 0) == Ok::<(ExprView, Seq<TokenView>), Seq<char>>((all, t5)));
    } else {
        assert(binding_rank(op2.kind) <= binding_rank(op1.kind));
        assert(spec_app_loop(src, y, t3) == Ok::<(ExprView, Seq<TokenView>), Seq<char>>((y, t3)));
        assert(spec_infix_loop(src, y, t3, p1) == Ok::<(ExprView, Seq<TokenView>), Seq<char>>((y, t3)));
        assert(spec_parse_expr(src, t2, p1) == Ok::<(ExprView, Seq<TokenView>), Seq<char>>((y, t3)));
        let xy = spec_desugar_infix(op1.kind, x, y);
        let all = spec_desugar_infix(op2.kind, xy, z);
        assert(spec_infix_loop(src, z, t5, p2) == Ok::<(ExprView, Seq<TokenView>), Seq<char>>((z, t5)));
        assert(spec_parse_expr(src, t4, p2) == Ok::<(ExprView, Seq<TokenView>), Seq<char>>((z, t5)));
        assert(spec_app_loop(src, all, t5) == Ok::<(ExprView, Seq<TokenView>), Seq<char>>((all, t5)));
        assert(spec_infix_loop(src, all, t5, 0) == Ok::<(ExprView, Seq<TokenView>), Seq<char>>((all, t5)));
        assert(spec_infix_loop(src, xy, t3, 0) == Ok::<(ExprView, Seq<TokenView>), Seq<char>>((all, t5)));
        assert(spec_infix_loop(src, x, t1, 0) == Ok::<(ExprView, Seq<TokenView>), Seq<char>>((all, t5)));
    }
}

/// An operand followed by nothing that continues an expression reads as
/// its atom.
proof fn lemma_operand_then(src: Seq<char>, t: TokenView, rest: Seq<TokenView>, min: nat)
    requires
        is_operand(src, t),
        rest.len() == 0 || (spec_precedence(rest[0].kind).spec_lbp() <= min && !spec_is_start_of_expr(rest[0].kind)),
    ensures
        spec_parse_expr(src, seq![t] + rest, min) == Ok::<(ExprView, Seq<TokenView>), Seq<char>>((
            spec_parse_atom(src, t)->Ok_0,
            rest,
        )),
{
    let ts = seq![t] + rest;
    assert(ts[0] == t);
    assert(ts.skip(1) =~= rest);
    let x = spec_parse_atom(src, t)->Ok_0;
    assert(spec_parse_prefix(src, ts) == Ok::<(ExprView, Seq<TokenView>), Seq<char>>((x, rest)));
    assert(spec_app_loop(src, x, rest) == Ok::<(ExprView, Seq<TokenView>), Seq<char>>((x, rest)));
    assert(spec_infix_loop(src, x, rest, min) == Ok::<(ExprView, Seq<TokenView>), Seq<char>>((x, rest)));
}

/// `let x = v`, for operands `x` and `v`, reads as the list `(let x v)`.
pub proof fn lemma_let_reads_as_list(src: Seq<char>, l: TokenView, x: TokenView, e: TokenView, v: TokenView)
    requires
        l.kind == TokenKind::Let,
        e.kind == TokenKind::Equals,
        is_operand(src, x),
        is_operand(src, v),
    ensures
        spec_parse(src, seq![l, x, e, v]) == Ok::<(ExprView, Seq<TokenView>), Seq<char>>((
            ExprView::List(
                seq![ExprView::Ident("let"@), spec_parse_atom(src, x)->Ok_0, spec_parse_atom(src, v)->Ok_0],
            ),
            seq![],
        )),
{
    let ts = seq![l, x, e, v];
    let t1 = seq![x, e, v];
    let t3 = seq![v];
    let t4 = Seq::<TokenView>::empty();
    assert(ts.skip(1) =~= t1);
    assert(t1.skip(2) =~= t3);
    assert(t3 + t4 =~= t3);
    lemma_operand_then(src, v, t4, 0);
    let xv = spec_parse_atom(src, x)->Ok_0;
    let vv = spec_parse_atom(src, v)->Ok_0;
    let all = ExprView::List(seq![ExprView::Ident("let"@), xv, vv]);
    assert(spec_parse_let(src, t1) == Ok::<(ExprView, Seq<TokenView>), Seq<char>>((all, t4)));
    assert(spec_parse_prefix(src, ts) == Ok::<(ExprView, Seq<TokenView>), Seq<char>>((all, t4)));
    assert(spec_app_loop(src, all, t4) == Ok::<(ExprView, Seq<TokenView>), Seq<char>>((all, t4)));
    assert(spec_infix_loop(src, all, t4, 0) == Ok::<(ExprView, Seq<TokenView>), Seq<char>>((all, t4)));
}

/// `if a then b else c`, for operands `a`, `b` and `c`, reads as the list
/// `(if a b c)`; without `else c`, as `(if a b nil)`.
pub proof fn lemma_if_reads_as_list(
    src: Seq<char>,
    i: TokenView,
    a: TokenView,
    th: TokenView,
    b: TokenView,
    el: TokenView,
    c: TokenView,
)
    requires
        i.kind == TokenKind::If,
        th.kind == TokenKind::Then,
        el.kind == TokenKind::Else,
        is_operand(src, a),
        is_operand(src, b),
        is_operand(src, c),
    ensures
        spec_parse(src, seq![i, a, th, b, el, c]) == Ok::<(ExprView, Seq<TokenView>), Seq<char>>((
            ExprView::List(
                seq![
                    ExprView::Ident("if"@),
                    spec_parse_atom(src, a)->Ok_0,
                    spec_parse_atom(src, b)->Ok_0,
                    spec_parse_atom(src, c)->Ok_0,
                ],
            ),
            seq![],
        )),
        spec_parse(src, seq![i, a, th, b]) == Ok::<(ExprView, Seq<TokenView>), Seq<char>>((
            ExprView::List(
                seq![
                    ExprView::Ident("if"@),
                    spec_parse_atom(src, a)->Ok_0,
                    spec_parse_atom(src, b)->Ok_0,
                    ExprView::Nil,
                ],
            ),
            seq![],
        )),
{
    let av = spec_parse_atom(src, a)->Ok_0;
    let bv = spec_parse_atom(src, b)->Ok_0;
    let cv = spec_parse_atom(src, c)->Ok_0;
    let e = Seq::<TokenView>::empty();
    let ts = seq![i, a, th, b, el, c];
    let t1 = seq![a, th, b, el, c];
    let t2 = seq![th, b, el, c];
    let t3 = seq![b, el, c];
    let t4 = seq![el, c];
    let t5 = seq![c];
    assert(ts.skip(1) =~= t1);
    assert(t2.skip(1) =~= t3);
    assert(t4.skip(1) =~= t5);
    assert(seq![a] + t2 =~= t1);
    assert(seq![b] + t4 =~= t3);
    assert(t5 + e =~= t5);
    lemma_operand_then(src, a, t2, 0);
    lemma_operand_then(src, b, t4, 0);
    lemma_operand_then(src, c, e, 0);
    let all = ExprView::List(seq![ExprView::Ident("if"@), av, bv, cv]);
    assert(spec_parse_if(src, t1) == Ok::<(ExprView, Seq<TokenView>), Seq<char>>((all, e)));
    assert(spec_parse_prefix(src, ts) == Ok::<(ExprView, Seq<TokenView>), Seq<char>>((all, e)));
    assert(spec_app_loop(src, all, e) == Ok::<(ExprView, Seq<TokenView>), Seq<char>>((all, e)));
    assert(spec_infix_loop(src, all, e, 0) == Ok::<(ExprView, Seq<TokenView>), Seq<char>>((all, e)));
    let us = seq![i, a, th, b];
    let u1 = seq![a, th, b];
    let u2 = seq![th, b];
    let u3 = seq![b];
    assert(us.skip(1) =~= u1);
    assert(u2.skip(1) =~= u3);
    assert(seq![a] + u2 =~= u1);
    assert(u3 + e =~= u3);
    lemma_operand_then(src, a, u2, 0);
    lemma_operand_then(src, b, e, 0);
    let short = ExprView::List(seq![ExprView::Ident("if"@), av, bv, ExprView::Nil]);
    assert(spec_parse_if(src, u1) == Ok::<(ExprView, Seq<TokenView>), Seq<char>>((short, e)));
    assert(spec_parse_prefix(src, us) == Ok::<(ExprView, Seq<TokenView>), Seq<char>>((short, e)));
    assert(spec_app_loop(src, short, e) == Ok::<(ExprView, Seq<TokenView>), Seq<char>>((short, e)));
    assert(spec_infix_loop(src, short, e, 0) == Ok::<(ExprView, Seq<TokenView>), Seq<char>>((short, e)));
}

/// The atoms that operand tokens read as.
pub open spec fn operand_atoms(src: Seq<char>, ps: Seq<TokenView>) -> Seq<ExprView> {
    ps.map_values(|t: TokenView| spec_parse_atom(src, t)->Ok_0)
}

proof fn lemma_params_read(src: Seq<char>, ps: Seq<TokenView>, rest: Seq<TokenView>)
    requires
        forall|i: int| 0 <= i < ps.len() ==> is_operand(src, #[trigger] ps[i]),
        rest.len() > 0,
        rest[0].kind == TokenKind::OpenBrace,
    ensures
        spec_fn_params(src, ps + rest) == Ok::<(Seq<ExprView>, Seq<TokenView>), Seq<char>>((operand_atoms(src, ps), rest)),
    decreases ps.len(),
{
    if ps.len() == 0 {
        assert(ps + rest =~= rest);
        assert(operand_atoms(src, ps) =~= Seq::<ExprView>::empty());
    } else {
        let tail = ps.skip(1);
        assert forall|i: int| 0 <= i < tail.len() implies is_operand(src, #[trigger] tail[i]) by {
            assert(tail[i] == ps[i + 1]);
        }
        lemma_params_read(src, tail, rest);
        assert((ps + rest).skip(1) =~= tail + rest);
        assert((ps + rest)[0] == ps[0]);
        assert(is_operand(src, ps[0]));
        assert(operand_atoms(src, ps) =~= seq![spec_parse_atom(src, ps[0])->Ok_0] + operand_atoms(src, tail));
    }
}

/// `fn p1 .. pn { b }`, for operands `p1` to `pn` and `b`, reads as the
/// list `(fn (p1 .. pn) b)`, the parameters in the order written.
pub proof fn lemma_fn_reads_as_list(
    src: Seq<char>,
    f: TokenView,
    ps: Seq<TokenView>,
    ob: TokenView,
    b: TokenView,
    cb: TokenView,
)
    requires
        f.kind == TokenKind::Fn,
        ob.kind == TokenKind::OpenBrace,
        cb.kind == TokenKind::CloseBrace,
        forall|i: int| 0 <= i < ps.len() ==> is_operand(src, #[trigger] ps[i]),
        is_operand(src, b),
    ensures
        spec_parse(src, seq![f] + ps + seq![ob, b, cb]) == Ok::<(ExprView, Seq<TokenView>), Seq<char>>((
            ExprView::List(
                seq![
                    ExprView::Ident("fn"@),
                    ExprView::List(operand_atoms(src, ps)),
                    spec_parse_atom(src, b)->Ok_0,
                ],
            ),
            seq![],
        )),
{
    let e = Seq::<TokenView>::empty();
    let tail = seq![ob, b, cb];
    let ts = seq![f] + ps + tail;
    assert(ts[0] == f);
    assert(ts.skip(1) =~= ps + tail);
    lemma_params_read(src, ps, tail);
    assert(tail.skip(1) =~= seq![b] + seq![cb]);
    lemma_operand_then(src, b, seq![cb], 0);
    assert(seq![cb].skip(1) =~= e);
    let all = ExprView::List(
        seq![ExprView::Ident("fn"@), ExprView::List(operand_atoms(src, ps)), spec_parse_atom(src, b)->Ok_0],
    );
    assert(spec_parse_fn(src, ps + tail) == Ok::<(ExprView, Seq<TokenView>), Seq<char>>((all, e)));
    assert(spec_parse_prefix(src, ts) == Ok::<(ExprView, Seq<TokenView>), Seq<char>>((all, e)));
    assert(spec_app_loop(src, all, e) == Ok::<(ExprView, Seq<TokenView>), Seq<char>>((all, e)));
    assert(spec_infix_loop(src, all, e, 0) == Ok::<(ExprView, Seq<TokenView>), Seq<char>>((all, e)));
}

} // verus!
