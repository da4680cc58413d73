use exprlang::error::Error;
use exprlang::lex::lex;
use exprlang::parse::{Expr, Number, Parser, Prec};

fn parse_all(src: &str) -> Result<(Expr, usize), String> {
    let tokens = lex("test", src);
    let mut parser = Parser::new(src);
    match parser.parse(&tokens) {
        Ok((e, rest)) => Ok((e, rest.len())),
        Err(Error::Reason(r)) => Err(r),
    }
}

fn ident(s: &str) -> Expr {
    Expr::Ident(s.to_string())
}

fn num(n: i128) -> Expr {
    Expr::Number(Number::Discrete(n))
}

fn list(items: Vec<Expr>) -> Expr {
    Expr::List(items)
}

#[test]
fn infix_operators_bind_by_precedence() {
    assert_eq!(
        parse_all("1 + 2 * 3"),
        Ok((list(vec![ident("+"), num(1), list(vec![ident("*"), num(2), num(3)])]), 0))
    );
    assert_eq!(
        parse_all("1 * 2 + 3"),
        Ok((list(vec![ident("+"), list(vec![ident("*"), num(1), num(2)]), num(3)]), 0))
    );
    assert_eq!(
        parse_all("1 < 2"),
        Ok((list(vec![ident("<"), num(1), num(2)]), 0))
    );
    // `=` binds, but stands for no function
    assert_eq!(
        parse_all("x = 2"),
        Ok((list(vec![ident("unknown_op"), ident("x"), num(2)]), 0))
    );
}

#[test]
fn application_nests_to_the_right() {
    assert_eq!(
        parse_all("f x y"),
        Ok((list(vec![ident("f"), list(vec![ident("x"), ident("y")])]), 0))
    );
}

#[test]
fn let_fn_do_and_groups() {
    assert_eq!(parse_all("let x = 5"), Ok((list(vec![ident("let"), ident("x"), num(5)]), 0)));
    assert_eq!(
        parse_all("fn a b { a }"),
        Ok((list(vec![ident("fn"), list(vec![ident("a"), ident("b")]), ident("a")]), 0))
    );
    assert_eq!(parse_all("do { 7 }"), Ok((num(7), 0)));
    assert_eq!(parse_all("do 1 )"), Ok((list(vec![num(1)]), 0)));
    assert_eq!(parse_all("(4) 5"), Ok((list(vec![num(4), num(5)]), 0)));
    assert_eq!(parse_all("{ nil } ;"), Ok((Expr::Nil, 1)));
}

#[test]
fn literals() {
    assert_eq!(parse_all("1.5"), Ok((Expr::Number(Number::Float("1.5".to_string())), 0)));
    assert_eq!(parse_all("0b"), Ok((num(0), 0)));
    assert_eq!(parse_all("true"), Ok((Expr::Bool(true), 0)));
    assert_eq!(parse_all("false"), Ok((Expr::Bool(false), 0)));
    assert_eq!(parse_all("\"a\\nb\""), Ok((Expr::String("a\nb".to_string()), 0)));
    assert_eq!(parse_all("170141183460469231731687303715884105727"), Ok((num(i128::MAX), 0)));
}

#[test]
fn literal_errors() {
    assert_eq!(parse_all("0x10"), Err("literal: Failed to parse Integer.".to_string()));
    assert_eq!(parse_all("1_000"), Err("literal: Failed to parse Integer.".to_string()));
    assert_eq!(
        parse_all("170141183460469231731687303715884105728"),
        Err("literal: Failed to parse Integer.".to_string())
    );
    assert_eq!(parse_all("1e"), Err("literal: Failed to parse float.".to_string()));
    assert_eq!(parse_all("0x1.5"), Err("literal: Can only parse floats as decimal.".to_string()));
    // the quotes are part of the text that is unescaped
    assert_eq!(
        parse_all("'a'"),
        Err("literal: failed to unescape char-string: EscapeOnlyChar".to_string())
    );
    assert_eq!(parse_all("'a"), Err("literal: Unterminated char quote.".to_string()));
    assert_eq!(parse_all("\"a"), Err("literal: Unterminated string quote.".to_string()));
    assert_eq!(
        parse_all("\"\\q\""),
        Err("literal: failed to unescape string: InvalidEscape".to_string())
    );
}

#[test]
fn structural_errors() {
    assert_eq!(parse_all(""), Err("empty expression".to_string()));
    assert_eq!(parse_all("(1"), Err("expected )".to_string()));
    assert_eq!(parse_all("{1"), Err("expected }".to_string()));
    assert_eq!(parse_all("let"), Err("let: expected name".to_string()));
    assert_eq!(parse_all("let x 1"), Err("let: expected =".to_string()));
    assert_eq!(parse_all("fn a"), Err("fn: expected {".to_string()));
    assert_eq!(parse_all("fn a { a"), Err("fn: expected }".to_string()));
    assert_eq!(parse_all("if x"), Err("if: expected 'then'".to_string()));
    assert_eq!(parse_all("do"), Err("do: expected { or list".to_string()));
    assert_eq!(parse_all("do { 1"), Err("do: expected }".to_string()));
    assert_eq!(parse_all("do 1"), Err("seq: Could not find closing `)`.".to_string()));
    assert_eq!(parse_all("1 +"), Err("empty expression".to_string()));
}

#[test]
fn binding_powers() {
    assert_eq!(Prec::Lowest.lbp(), 0);
    assert_eq!(Prec::Assign.lbp(), 1);
    assert_eq!(Prec::Power.lbp(), 6);
    assert_eq!(Prec::Call.lbp(), 10);
}
