use pascal_rust::error::{Error, ErrorCode};
use pascal_rust::lexer::Lexer;
use pascal_rust::tokens::{Token, TokenType};
use pascal_rust::utils::Pos;

#[test]
fn test_lexer() {
    const SOURCE_CODE: &str = "PROGRAM IN FOR 1.3212; -10 - { some comment }{another one}  'c' \\\\ other type of comments FOR i := 10\n 'hello'\n;;. >= : :=";
    let expected = [
        TokenType::Program,
        TokenType::In,
        TokenType::For,
        TokenType::RealConst,
        TokenType::Semi,
        TokenType::IntegerConst(-10),
        TokenType::Minus,
        TokenType::CharConst('c'),
        TokenType::StringConst,
        TokenType::Semi,
        TokenType::Semi,
        TokenType::Dot,
        TokenType::GreaterEqual,
        TokenType::Colon,
        TokenType::Assign,
    ];
    let mut lexer = Lexer::new(SOURCE_CODE);
    for e in expected {
        let result = lexer.next();
        assert!(result.is_ok());
        let token_type = result.unwrap();
        assert_eq!(token_type.token_type(), &e);
    }
}

#[test]
fn test_string_token() {
    const SOURCE_CODE: &str = "a := 'Hello, World!'";
    let mut result = Lexer::new(SOURCE_CODE);
    result.next().unwrap();
    result.next().unwrap();
    let str_token = result.next();
    assert!(str_token.is_ok());
    let str_token = str_token.unwrap();
    assert_eq!(
        str_token,
        Token::new(TokenType::StringConst, 6, 13, Pos { row: 1, col: 7 })
    );
    assert_eq!(str_token.lexem(SOURCE_CODE), "Hello, World!")
}

#[test]
fn string_token_is_reported_at_its_first_character() {
    const SOURCE_CODE: &str = "a := 'Hello, World!'";
    let mut lexer = Lexer::new(SOURCE_CODE);
    lexer.next().unwrap();
    lexer.next().unwrap();
    let t = lexer.next().unwrap();
    assert_eq!(t.pos().row, 1);
    assert_eq!(t.pos().col, 7);
    assert_eq!(t.span().start(), 6);
}

#[test]
fn test_unexpected_token() {
    const SOURCE_CODE: &str = "@";
    let result = Lexer::new(SOURCE_CODE).next();
    assert!(result.is_err());
    let err = result.unwrap_err();
    assert!(matches!(
        err,
        Error::LexerError {
            error_code: ErrorCode::UnknownCharacter,
            ..
        }
    ))
}

fn all_tokens(src: &str) -> Vec<Token> {
    let mut lexer = Lexer::new(src);
    let mut out = Vec::new();
    loop {
        let t = lexer.next().unwrap();
        let end = matches!(t.token_type(), TokenType::EOF);
        out.push(t);
        if end {
            break;
        }
    }
    out
}

#[test]
fn keywords_are_case_insensitive() {
    let toks = all_tokens("program Begin eNd div true");
    let kinds: Vec<TokenType> = toks.iter().map(|t| *t.token_type()).collect();
    assert_eq!(
        kinds,
        vec![
            TokenType::Program,
            TokenType::Begin,
            TokenType::End,
            TokenType::RealDiv,
            TokenType::BooleanConst(true),
            TokenType::EOF
        ]
    );
    assert!(matches!(toks[4].token_type(), TokenType::BooleanConst(true)));
}

#[test]
fn integer_values_and_widths() {
    let toks = all_tokens("2147483647 2147483648 -2147483648 -2147483649 007");
    assert!(matches!(toks[0].token_type(), TokenType::IntegerConst(2147483647)));
    assert!(matches!(toks[1].token_type(), TokenType::Int64Const(2147483648)));
    assert!(matches!(toks[2].token_type(), TokenType::IntegerConst(-2147483648)));
    assert!(matches!(toks[3].token_type(), TokenType::Int64Const(-2147483649)));
    assert!(matches!(toks[4].token_type(), TokenType::IntegerConst(7)));
    let toks = all_tokens("-9223372036854775808 9223372036854775807");
    assert!(matches!(toks[0].token_type(), TokenType::Int64Const(i64::MIN)));
    assert!(matches!(toks[1].token_type(), TokenType::Int64Const(i64::MAX)));
}

#[test]
fn real_literal_lexeme_and_range_dots() {
    let src = "3.25 1..10";
    let toks = all_tokens(src);
    assert!(matches!(toks[0].token_type(), TokenType::RealConst));
    assert_eq!(toks[0].lexem(src), "3.25");
    assert!(matches!(toks[1].token_type(), TokenType::IntegerConst(1)));
    assert!(matches!(toks[2].token_type(), TokenType::Dot));
    assert!(matches!(toks[3].token_type(), TokenType::Dot));
    assert!(matches!(toks[4].token_type(), TokenType::IntegerConst(10)));
}

#[test]
fn two_character_operators() {
    let toks = all_tokens("<> <= < > >= := :");
    let kinds: Vec<TokenType> = toks.iter().map(|t| *t.token_type()).collect();
    assert_eq!(
        kinds,
        vec![
            TokenType::NotEqual,
            TokenType::LessEqual,
            TokenType::LessThen,
            TokenType::GreaterThen,
            TokenType::GreaterEqual,
            TokenType::Assign,
            TokenType::Colon,
            TokenType::EOF
        ]
    );
    assert_eq!(toks[0].span().start(), 0);
    assert_eq!(toks[0].span().len(), 2);
}

#[test]
fn positions_follow_rows_and_columns() {
    let src = "ab\n  cd";
    let toks = all_tokens(src);
    assert_eq!(toks[0].pos().row, 1);
    assert_eq!(toks[0].pos().col, 1);
    assert_eq!(toks[1].pos().row, 2);
    assert_eq!(toks[1].pos().col, 3);
    assert_eq!(toks[1].lexem(src), "cd");
    let eof = toks[2];
    assert!(matches!(eof.token_type(), TokenType::EOF));
    assert_eq!(eof.span().start(), 6);
}

#[test]
fn end_marker_repeats() {
    let mut lexer = Lexer::new("x");
    assert!(matches!(lexer.next().unwrap().token_type(), TokenType::Id));
    let a = lexer.next().unwrap();
    let b = lexer.next().unwrap();
    assert!(matches!(a.token_type(), TokenType::EOF));
    assert!(matches!(b.token_type(), TokenType::EOF));
    assert_eq!(a.span().start(), b.span().start());
}

#[test]
fn comments_are_skipped() {
    let toks = all_tokens("{ a } \\\\ line\n b {c}");
    assert!(matches!(toks[0].token_type(), TokenType::Id));
    assert_eq!(toks[0].lexem("{ a } \\\\ line\n b {c}"), "b");
    assert!(matches!(toks[1].token_type(), TokenType::EOF));
}

#[test]
fn unknown_character_position() {
    let mut lexer = Lexer::new("a\n  @");
    lexer.next().unwrap();
    match lexer.next() {
        Err(Error::LexerError { pos, error_code, msg }) => {
            assert_eq!(error_code, ErrorCode::UnknownCharacter);
            assert_eq!(pos.row, 2);
            assert_eq!(pos.col, 3);
            assert_eq!(msg, "unexpected character Some('@')");
        }
        _ => panic!("expected a lexer error"),
    }
}

#[test]
fn char_and_string_constants() {
    let src = "'x' 'xy' ''";
    let toks = all_tokens(src);
    assert!(matches!(toks[0].token_type(), TokenType::CharConst('x')));
    assert_eq!(toks[0].pos().col, 2);
    assert!(matches!(toks[1].token_type(), TokenType::StringConst));
    assert_eq!(toks[1].pos().col, 6);
    assert_eq!(toks[1].lexem(src), "xy");
    assert!(matches!(toks[2].token_type(), TokenType::CharConst('\'')));
}
