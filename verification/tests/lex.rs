use exprlang::lex::{
    is_id_continue, is_id_start, is_ident, is_newline, is_whitespace, keyword, lex, Base, Cursor,
    Errors, LiteralKind, Token, TokenKind,
};

fn kinds_and_pos(tokens: &[Token]) -> Vec<(TokenKind, (usize, usize))> {
    tokens.iter().map(|t| (t.kind, t.pos())).collect()
}

#[test]
fn lexes_a_let_binding() {
    let tokens = lex("f", "let x = 12");
    assert_eq!(
        kinds_and_pos(&tokens),
        vec![
            (TokenKind::Let, (0, 3)),
            (TokenKind::Ident, (4, 1)),
            (TokenKind::Equals, (6, 1)),
            (
                TokenKind::Literal { kind: LiteralKind::Int { base: Base::Decimal, empty_int: false } },
                (8, 2)
            ),
        ]
    );
}

#[test]
fn drops_comments_whitespace_and_newlines() {
    let tokens = lex("f", "a // c\n/* x /* y */ */b");
    assert_eq!(kinds_and_pos(&tokens), vec![(TokenKind::Ident, (0, 1)), (TokenKind::Ident, (22, 1))]);
}

#[test]
fn keeps_an_unterminated_block_comment() {
    let tokens = lex("f", "/* x");
    assert_eq!(kinds_and_pos(&tokens), vec![(TokenKind::BlockComment { terminated: false }, (0, 4))]);
}

#[test]
fn lexes_numbers() {
    let tokens = lex("f", "0x1F 0b 1.5e3 2.e 3..4 1_000u8 1e");
    let int = |base, empty_int| TokenKind::Literal { kind: LiteralKind::Int { base, empty_int } };
    let float = |empty_exponent| TokenKind::Literal {
        kind: LiteralKind::Float { base: Base::Decimal, empty_exponent },
    };
    assert_eq!(
        kinds_and_pos(&tokens),
        vec![
            (int(Base::Hexadecimal, false), (0, 4)),
            (int(Base::Binary, true), (5, 2)),
            (float(false), (8, 5)),
            (int(Base::Decimal, false), (14, 1)),
            (TokenKind::Dot, (15, 1)),
            (TokenKind::Ident, (16, 1)),
            (int(Base::Decimal, false), (18, 1)),
            (TokenKind::Dot, (19, 1)),
            (TokenKind::Dot, (20, 1)),
            (int(Base::Decimal, false), (21, 1)),
            (int(Base::Decimal, false), (23, 7)),
            (float(true), (31, 2)),
        ]
    );
}

#[test]
fn lexes_quoted_literals() {
    let tokens = lex("f", "'a' \"hi\\\"x\" 'ab");
    assert_eq!(
        kinds_and_pos(&tokens),
        vec![
            (TokenKind::Literal { kind: LiteralKind::Char { terminated: true } }, (0, 3)),
            (TokenKind::Literal { kind: LiteralKind::Str { terminated: true } }, (4, 7)),
            (TokenKind::Literal { kind: LiteralKind::Char { terminated: false } }, (12, 3)),
        ]
    );
    let tokens = lex("f", "\"open");
    assert_eq!(
        kinds_and_pos(&tokens),
        vec![(TokenKind::Literal { kind: LiteralKind::Str { terminated: false } }, (0, 5))]
    );
}

#[test]
fn lexes_operators() {
    let tokens = lex("f", "a and b != c => d;; <= << >> -> %");
    let kinds: Vec<TokenKind> = tokens.iter().map(|t| t.kind).collect();
    assert_eq!(
        kinds,
        vec![
            TokenKind::Ident,
            TokenKind::And,
            TokenKind::Ident,
            TokenKind::NotEq,
            TokenKind::Ident,
            TokenKind::FatArrow,
            TokenKind::Ident,
            TokenKind::DoubleSemi,
            TokenKind::LtEq,
            TokenKind::ShiftLeft,
            TokenKind::ShiftRight,
            TokenKind::Arrow,
            TokenKind::Mod,
        ]
    );
    // a word operator is taken from the front of a longer word
    let tokens = lex("f", "andy");
    assert_eq!(kinds_and_pos(&tokens), vec![(TokenKind::And, (0, 3)), (TokenKind::Ident, (3, 1))]);
}

#[test]
fn lexes_keywords_and_unknowns() {
    let tokens = lex("f", "if fn nil do println print true false é#!x\n#");
    let kinds: Vec<TokenKind> = tokens.iter().map(|t| t.kind).collect();
    assert_eq!(
        kinds,
        vec![
            TokenKind::If,
            TokenKind::Fn,
            TokenKind::Nil,
            TokenKind::Do,
            TokenKind::Println,
            TokenKind::Print,
            TokenKind::True,
            TokenKind::False,
            TokenKind::Unknown,
            TokenKind::Shebang,
            TokenKind::Pound,
        ]
    );
    // byte offsets count the two bytes of `é`
    assert_eq!(tokens[8].pos(), (38, 2));
    assert_eq!(tokens[9].pos(), (40, 3));
    assert_eq!(tokens[10].pos(), (44, 1));
}

#[test]
fn empty_input_has_no_tokens() {
    assert!(lex("f", "").is_empty());
    assert!(lex("f", " \t\n\n").is_empty());
}

#[test]
fn keywords() {
    assert_eq!(keyword('p', "rintln"), Some(TokenKind::Println));
    assert_eq!(keyword('p', "rint"), Some(TokenKind::Print));
    assert_eq!(keyword('f', "alse"), Some(TokenKind::False));
    assert_eq!(keyword('x', "y"), None);
    assert_eq!(keyword('i', "ff"), None);
}

#[test]
fn character_classes() {
    assert!(is_whitespace(' ') && is_whitespace('\t') && is_whitespace('\r'));
    assert!(!is_whitespace('\n'));
    assert!(is_newline('\n') && !is_newline(' '));
    assert!(is_id_start('_') && is_id_start('Z') && !is_id_start('1'));
    assert!(is_id_continue('1') && !is_id_continue('-'));
    assert!(is_ident("a1_b") && !is_ident("1a") && !is_ident(""));
}

#[test]
fn cursor_peeks_and_matches() {
    let mut c = Cursor::new("f", "and x");
    assert_eq!(c.first(), 'a');
    assert_eq!(c.third(), 'd');
    assert!(!c.is_eof());
    assert!(!c.matches(['x']));
    assert!(c.matches(['a', 'n']));
    assert_eq!(c.as_str(), "d x");
    let t = c.advance_token();
    assert_eq!((t.kind, t.pos()), (TokenKind::Ident, (0, 3)));
    let t = c.advance_token();
    assert_eq!((t.kind, t.pos()), (TokenKind::WhiteSpace, (3, 1)));
    let t = c.advance_token();
    assert_eq!((t.kind, t.pos()), (TokenKind::Ident, (4, 1)));
    assert!(c.is_eof());
    assert_eq!(c.first(), '\0');
    let t = c.advance_token();
    assert_eq!((t.kind, t.pos()), (TokenKind::Eof, (5, 0)));
}

#[test]
fn errors_queue() {
    let mut errors = Errors::new("f", "abc");
    assert!(!errors.had_error());
    errors.push("bad", 1, 1);
    errors.push("worse", 2, 1);
    assert!(errors.had_error());
    errors.reset_errors();
    assert!(!errors.had_error());
    assert!(errors.pop().is_some());
    assert!(errors.pop().is_some());
    assert!(errors.pop().is_none());
}

#[test]
fn token_new_and_pos() {
    let t = Token::new(TokenKind::Comma, 7, 1);
    assert_eq!(t.pos(), (7, 1));
    assert_eq!(t.kind(), TokenKind::Comma);
}

#[test]
fn tokens_come_in_the_order_of_the_source() {
    let tokens = lex("f", "let x = (y + 2) // done\n\"s\" 'c' 3.5");
    for pair in tokens.windows(2) {
        assert!(pair[0].pos().0 < pair[1].pos().0);
    }
    for t in &tokens {
        assert!(!matches!(
            t.kind,
            TokenKind::Eof | TokenKind::WhiteSpace | TokenKind::Newline | TokenKind::LineComment
        ));
    }
    assert_eq!(tokens.len(), 11);
}

#[test]
fn diagnostics_are_reported_against_their_line() {
    let mut errors = Errors::new("f", "ab\ncd");
    errors.push("bad", 1, 1);
    errors.push("oops", 4, 1);
    let first = errors.pop().unwrap();
    assert_eq!(errors.report(&first), "error: bad\n --> f@1:2\n1 | ab\n     ^");
    errors.push("wide", 3, 2);
    let all = errors.report_all();
    assert_eq!(
        all,
        vec![
            "error: oops\n --> f@2:2\n2 | cd\n     ^".to_string(),
            "error: wide\n --> f@2:1\n2 | cd\n    ^^".to_string(),
        ]
    );
    assert!(errors.pop().is_none());
    assert!(errors.had_error());
}

#[test]
fn next_message_takes_the_oldest() {
    let mut errors = Errors::new("g.x", "x");
    assert_eq!(errors.next_message(), None);
    errors.push("m", 0, 1);
    assert_eq!(errors.next_message(), Some("error: m\n --> g.x@1:1\n1 | x\n    ^".to_string()));
    assert_eq!(errors.next_message(), None);
}

#[test]
fn arrows_are_two_character_tokens() {
    let mut c = Cursor::new("t", "->");
    let t = c.advance_token();
    assert_eq!((t.kind, t.pos()), (TokenKind::Arrow, (0, 2)));
    assert_eq!(c.advance_token().kind, TokenKind::Eof);
    let mut c = Cursor::new("t", "=>");
    let t = c.advance_token();
    assert_eq!((t.kind, t.pos()), (TokenKind::FatArrow, (0, 2)));
    assert_eq!(c.advance_token().kind, TokenKind::Eof);
    let tokens = lex("f", "a->b=>c");
    assert_eq!(
        kinds_and_pos(&tokens),
        vec![
            (TokenKind::Ident, (0, 1)),
            (TokenKind::Arrow, (1, 2)),
            (TokenKind::Ident, (3, 1)),
            (TokenKind::FatArrow, (4, 2)),
            (TokenKind::Ident, (6, 1)),
        ]
    );
}
