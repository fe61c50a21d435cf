//! Running whole programs, rendering their values, and the texts that the
//! serializers and the lexer agree on.

use emily::eval::{run_program, EvalError};
use emily::lexer::Lexer;
use emily::output::{escape, render};
use emily::parser::Parser;
use emily::token::Token;
use emily::value::Value;

fn forms(src: &str) -> Vec<emily::ast::Expr> {
    Parser::new(Lexer::new(src).tokenize().unwrap()).parse().unwrap()
}

fn program_json(src: &str) -> String {
    let v = run_program(&forms(src)).unwrap();
    render(&v, "json").unwrap().unwrap()
}

#[test]
fn control_characters_are_escaped_as_unicode() {
    assert_eq!(escape("\u{1}"), "\\u0001");
    assert_eq!(escape("a\u{1f}b\u{0}"), "a\\u001fb\\u0000");
    assert_eq!(escape("\u{7f}"), "\\u007f");
    assert_eq!(escape("\u{80}é"), "\u{80}é");
    assert_eq!(
        Value::String("x\u{1b}y".to_string()).to_json().unwrap(),
        "\"x\\u001by\""
    );
}

#[test]
fn toml_keys_outside_the_bare_set_are_quoted() {
    let v = Value::Record(vec![("a.b".to_string(), Value::Int(1))]);
    assert_eq!(v.to_toml().unwrap(), "\"a.b\" = 1");
    let v = Value::Record(vec![
        ("ok_key-1".to_string(), Value::Int(1)),
        ("a?".to_string(), Value::Int(2)),
        ("".to_string(), Value::Int(3)),
        (
            "t".to_string(),
            Value::Record(vec![("x.y".to_string(), Value::Bool(true))]),
        ),
    ]);
    assert_eq!(
        v.to_toml().unwrap(),
        "ok_key-1 = 1\n\"a?\" = 2\n\"\" = 3\nt = { \"x.y\" = true }"
    );
    assert_eq!(program_toml("{:a.b 1}"), "\"a.b\" = 1");
}

fn program_toml(src: &str) -> String {
    let v = run_program(&forms(src)).unwrap();
    render(&v, "toml").unwrap().unwrap()
}

#[test]
fn the_last_form_gives_the_program_value() {
    assert_eq!(program_json("(def x 1) (def y 2) {:x x :y y}"), "{\"x\": 1, \"y\": 2}");
    assert_eq!(program_json("1 2 3"), "3");
    assert_eq!(program_json(""), "false");
    assert!(matches!(
        run_program(&forms("(def x 1) nope (def y 2)")),
        Err(EvalError::UnknownName(n)) if n == "nope"
    ));
}

#[test]
fn a_program_gives_the_same_output_every_time() {
    let src = "(def base {:b 2 :a 1}) (merge base {:c [3 1 2]})";
    let first = program_json(src);
    assert_eq!(first, "{\"b\": 2, \"a\": 1, \"c\": [3, 1, 2]}");
    for _ in 0..3 {
        assert_eq!(program_json(src), first);
    }
}

#[test]
fn render_picks_the_format() {
    let v = Value::Record(vec![("k".to_string(), Value::List(vec![Value::Int(1)]))]);
    assert_eq!(render(&v, "json").unwrap().unwrap(), "{\"k\": [1]}");
    assert_eq!(render(&v, "yaml").unwrap().unwrap(), "k:\n  - 1");
    assert_eq!(render(&v, "toml").unwrap().unwrap(), "k = [1]");
    assert!(render(&v, "xml").is_none());
    assert_eq!(
        render(&Value::Int(1), "toml").unwrap().unwrap_err(),
        "TOML output requires a top-level record (mapping)"
    );
}

#[test]
fn printed_tokens_lex_back() {
    let src = "(def x -12) {:k \"a\\\"b\\n\" :j true} ' ` , ,@ : [sym.a -b]";
    let tokens = Lexer::new(src).tokenize().unwrap();
    let printed: Vec<String> = tokens
        .iter()
        .map(|t| match t {
            Token::Int(n) => n.to_string(),
            Token::String(s) => format!("\"{}\"", escape(s)),
            Token::Bool(b) => b.to_string(),
            Token::Symbol(s) => s.clone(),
            Token::Keyword(k) => format!(":{k}"),
            Token::Colon => ":".to_string(),
            Token::LParen => "(".to_string(),
            Token::RParen => ")".to_string(),
            Token::LBrace => "{".to_string(),
            Token::RBrace => "}".to_string(),
            Token::LBracket => "[".to_string(),
            Token::RBracket => "]".to_string(),
            Token::Quote => "'".to_string(),
            Token::Quasiquote => "`".to_string(),
            Token::Unquote => ",".to_string(),
            Token::UnquoteSplice => ",@".to_string(),
            Token::Float(f) => f.clone(),
        })
        .collect();
    assert_eq!(Lexer::new(&printed.join(" ")).tokenize().unwrap(), tokens);
}

#[test]
fn a_quoted_escaped_string_lexes_back() {
    let text = "tab\there \"quoted\" back\\slash\nline";
    let literal = format!("\"{}\"", escape(text));
    assert_eq!(
        Lexer::new(&literal).tokenize().unwrap(),
        vec![Token::String(text.to_string())]
    );
}
