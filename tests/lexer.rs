use adroit::lex::{lex, LexError, Token, TokenKind};

fn kinds(src: &str) -> Vec<TokenKind> {
    lex(src).unwrap().iter().map(|t| t.kind).collect()
}

#[test]
fn lexes_a_let_statement() {
    let toks = lex("let x = 1.5;").unwrap();
    let got: Vec<(TokenKind, u32, u16)> = toks.iter().map(|t| (t.kind, t.start, t.len)).collect();
    assert_eq!(
        got,
        vec![
            (TokenKind::Let, 0, 3),
            (TokenKind::Ident, 4, 1),
            (TokenKind::Equals, 6, 1),
            (TokenKind::Float, 8, 3),
            (TokenKind::Semicolon, 11, 1),
            (TokenKind::Eof, 12, 0),
        ]
    );
}

#[test]
fn empty_source_is_only_eof() {
    let toks = lex("").unwrap();
    assert_eq!(toks.len(), 1);
    assert_eq!(toks[0].kind, TokenKind::Eof);
    assert_eq!(toks[0].start, 0);
}

#[test]
fn whitespace_only_source_is_only_eof() {
    let toks = lex(" \t\r\n ").unwrap();
    assert_eq!(toks.len(), 1);
    assert_eq!(toks[0].start, 5);
}

#[test]
fn range_is_two_integers_around_dotdot() {
    assert_eq!(kinds("1..2"), vec![TokenKind::Int, TokenKind::DotDot, TokenKind::Int, TokenKind::Eof]);
}

#[test]
fn integer_then_dot_without_digits() {
    assert_eq!(kinds("1.x"), vec![TokenKind::Int, TokenKind::Dot, TokenKind::Ident, TokenKind::Eof]);
}

#[test]
fn keywords_only_as_whole_words() {
    assert_eq!(
        kinds("import imports in int for_ func"),
        vec![
            TokenKind::Import,
            TokenKind::Ident,
            TokenKind::In,
            TokenKind::Ident,
            TokenKind::Ident,
            TokenKind::Func,
            TokenKind::Eof,
        ]
    );
}

#[test]
fn compound_assignments_take_the_longest_token() {
    assert_eq!(
        kinds("a += b -= c *= d /= e = f"),
        vec![
            TokenKind::Ident,
            TokenKind::PlusEquals,
            TokenKind::Ident,
            TokenKind::MinusEquals,
            TokenKind::Ident,
            TokenKind::TimesEquals,
            TokenKind::Ident,
            TokenKind::DivideEquals,
            TokenKind::Ident,
            TokenKind::Equals,
            TokenKind::Ident,
            TokenKind::Eof,
        ]
    );
}

#[test]
fn punctuation_kinds() {
    assert_eq!(
        kinds("()[]{},.:;+-*/"),
        vec![
            TokenKind::LParen,
            TokenKind::RParen,
            TokenKind::LBracket,
            TokenKind::RBracket,
            TokenKind::LBrace,
            TokenKind::RBrace,
            TokenKind::Comma,
            TokenKind::Dot,
            TokenKind::Colon,
            TokenKind::Semicolon,
            TokenKind::Plus,
            TokenKind::Minus,
            TokenKind::Times,
            TokenKind::Divide,
            TokenKind::Eof,
        ]
    );
}

#[test]
fn comment_runs_to_end_of_line() {
    let toks = lex("# note é\nfunc").unwrap();
    assert_eq!(toks[0].kind, TokenKind::Comment);
    assert_eq!(toks[0].start, 0);
    assert_eq!(toks[0].len, 9);
    assert_eq!(toks[1].kind, TokenKind::Func);
    assert!(toks[0].kind.ignore());
    assert!(!toks[1].kind.ignore());
}

#[test]
fn invalid_character_is_reported_with_its_span() {
    match lex("a $ b") {
        Err(LexError::InvalidToken { start, len }) => {
            assert_eq!(start, 2);
            assert_eq!(len, 1);
        }
        other => panic!("unexpected {:?}", other),
    }
}

#[test]
fn invalid_multibyte_character_spans_all_its_bytes() {
    let err = lex("x é").unwrap_err();
    assert_eq!(err.byte_range(), 2..4);
    assert_eq!(err.message(), "invalid token");
}

#[test]
fn overlong_token_is_rejected() {
    let long = "a".repeat(70000);
    match lex(&long) {
        Err(LexError::TokenTooLong { start, end }) => {
            assert_eq!(start, 0);
            assert_eq!(end, 70000);
        }
        other => panic!("unexpected {:?}", other),
    }
    let err = LexError::TokenTooLong { start: 3, end: 70003 };
    assert_eq!(err.message(), "token size exceeds 64 KiB limit");
    assert_eq!(err.byte_range(), 3..70003);
}

#[test]
fn longest_allowed_token_is_accepted() {
    let long = "b".repeat(65535);
    let toks = lex(&long).unwrap();
    assert_eq!(toks[0].len, 65535);
    assert_eq!(toks[1].start, 65535);
}

#[test]
fn source_too_long_error_range_and_message() {
    let err = LexError::SourceTooLong;
    assert_eq!(err.byte_range(), (u32::MAX as usize)..(u32::MAX as usize));
    assert_eq!(err.message(), "file size exceeds 4 GiB limit");
}

#[test]
fn token_byte_range() {
    let t = Token { start: 4, len: 3, kind: TokenKind::Ident };
    assert_eq!(t.byte_range(), 4..7);
}

#[test]
fn kind_descriptions() {
    assert_eq!(TokenKind::Eof.description(), "end of file");
    assert_eq!(TokenKind::LBrace.description(), "`{`");
    assert_eq!(TokenKind::Float.description(), "number");
    assert_eq!(TokenKind::Import.description(), "`import`");
}

#[test]
fn first_error_wins() {
    let mut src = "a".repeat(70000);
    src.push('$');
    assert!(matches!(lex(&src), Err(LexError::TokenTooLong { start: 0, end: 70000 })));
}
