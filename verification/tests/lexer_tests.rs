//! Integration tests for the lexer: source text → tokens.

use emily::lexer::Lexer;
use emily::token::Token;

fn lex(src: &str) -> Vec<Token> {
    Lexer::new(src).tokenize().unwrap()
}

fn lex_err(src: &str) -> String {
    Lexer::new(src).tokenize().unwrap_err()
}

#[test]
fn lexes_symbols_and_numbers() {
    assert_eq!(
        lex("(+ 1 2)"),
        vec![
            Token::LParen,
            Token::Symbol("+".to_string()),
            Token::Int(1),
            Token::Int(2),
            Token::RParen,
        ]
    );
}

#[test]
fn int_test() {
    assert_eq!(lex("42"), vec![Token::Int(42)]);
}

#[test]
fn float_test() {
    // A float token carries its decimal text; its value is that of the text.
    let tokens = lex("3.14");
    assert_eq!(tokens.len(), 1);
    match &tokens[0] {
        Token::Float(text) => assert_eq!(text.parse::<f64>().unwrap(), 3.14),
        other => panic!("expected a float, got {other:?}"),
    }
}

#[test]
fn neg_or_symb_test1() {
    assert_eq!(lex("-1"), vec![Token::Int(-1)]);
}

#[test]
fn neg_or_symb_test2() {
    assert_eq!(lex("-"), vec![Token::Symbol("-".to_string())]);
}

#[test]
fn keyword_vs_colon() {
    assert_eq!(lex(":port"), vec![Token::Keyword("port".to_string())]);
    assert_eq!(
        lex(": Int"),
        vec![Token::Colon, Token::Symbol("Int".to_string()),]
    );
}

#[test]
fn dot_is_field_access_in_symbols() {
    assert_eq!(lex("foo.bar"), vec![Token::Symbol("foo.bar".to_string())]);
}

#[test]
fn booleans() {
    assert_eq!(
        lex("true false"),
        vec![Token::Bool(true), Token::Bool(false),]
    );
}

#[test]
fn string_with_escape() {
    assert_eq!(lex("\"hi\\n\""), vec![Token::String("hi\n".to_string()),]);
}

#[test]
fn reader_macros() {
    assert_eq!(
        lex("'x"),
        vec![Token::Quote, Token::Symbol("x".to_string())]
    );
    assert_eq!(
        lex("`x"),
        vec![Token::Quasiquote, Token::Symbol("x".to_string())]
    );
    assert_eq!(
        lex(",x"),
        vec![Token::Unquote, Token::Symbol("x".to_string())]
    );
    assert_eq!(
        lex(",@x"),
        vec![Token::UnquoteSplice, Token::Symbol("x".to_string())]
    );
}

#[test]
fn record_literal() {
    assert_eq!(
        lex("{:a 1}"),
        vec![
            Token::LBrace,
            Token::Keyword("a".to_string()),
            Token::Int(1),
            Token::RBrace,
        ]
    );
}

#[test]
fn comments_are_skipped() {
    assert_eq!(lex("; hello\n42"), vec![Token::Int(42)]);
}

#[test]
fn empty_input() {
    assert_eq!(lex(""), vec![]);
}

#[test]
fn float_keeps_its_text() {
    assert_eq!(lex("-0.50"), vec![Token::Float("-0.50".to_string())]);
    assert_eq!(lex("1.5)"), vec![Token::Float("1.5".to_string()), Token::RParen]);
    assert_eq!(lex_err("1.5.x"), "unexpected character: .");
}

#[test]
fn dot_after_digits_without_digit_is_not_a_float() {
    // `1.` is the int 1 followed by a stray `.`, which starts no token.
    assert_eq!(lex_err("1."), "unexpected character: .");
}

#[test]
fn int_limits() {
    assert_eq!(lex("9223372036854775807"), vec![Token::Int(i64::MAX)]);
    assert_eq!(lex("-9223372036854775808"), vec![Token::Int(i64::MIN)]);
    assert_eq!(lex_err("9223372036854775808"), "invalid int: 9223372036854775808");
    assert_eq!(lex_err("-9223372036854775809"), "invalid int: -9223372036854775809");
}

#[test]
fn minus_before_symbol_is_a_symbol() {
    assert_eq!(lex("-x"), vec![Token::Symbol("-x".to_string())]);
    assert_eq!(
        lex("(- 1 2)"),
        vec![
            Token::LParen,
            Token::Symbol("-".to_string()),
            Token::Int(1),
            Token::Int(2),
            Token::RParen,
        ]
    );
}

#[test]
fn colon_at_end_and_before_digit() {
    assert_eq!(lex(":"), vec![Token::Colon]);
    assert_eq!(lex(":1"), vec![Token::Colon, Token::Int(1)]);
}

#[test]
fn string_escapes_and_errors() {
    assert_eq!(
        lex("\"a\\tb\\\\c\\\"d\\r\""),
        vec![Token::String("a\tb\\c\"d\r".to_string())]
    );
    assert_eq!(lex_err("\"abc"), "unterminated string");
    assert_eq!(lex_err("\"abc\\"), "unterminated string");
    assert_eq!(lex_err("\"a\\qb\""), "unknown escape: \\q");
}

#[test]
fn unexpected_character() {
    assert_eq!(lex_err("(a # b)"), "unexpected character: #");
    assert_eq!(lex_err("§"), "unexpected character: §");
}

#[test]
fn unicode_letters_start_symbols() {
    // Letters beyond ASCII are symbol characters too.
    assert_eq!(lex("café"), vec![Token::Symbol("café".to_string())]);
    assert_eq!(lex(":名前"), vec![Token::Keyword("名前".to_string())]);
}

#[test]
fn comments_and_whitespace_between_tokens() {
    assert_eq!(
        lex("(a ; one\n\t b) ; end"),
        vec![
            Token::LParen,
            Token::Symbol("a".to_string()),
            Token::Symbol("b".to_string()),
            Token::RParen,
        ]
    );
    assert_eq!(lex("; only a comment"), vec![]);
}

#[test]
fn brackets_and_unquote_at_end() {
    assert_eq!(
        lex("[a],"),
        vec![
            Token::LBracket,
            Token::Symbol("a".to_string()),
            Token::RBracket,
            Token::Unquote,
        ]
    );
}
