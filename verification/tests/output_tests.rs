//! Serialization of values to JSON, YAML and TOML.

use emily::env::{Env, ROOT_SCOPE};
use emily::eval::eval;
use emily::lexer::Lexer;
use emily::output::escape;
use emily::parser::Parser;
use emily::value::Value;

fn run(src: &str) -> Value {
    let tokens = Lexer::new(src).tokenize().unwrap();
    let forms = Parser::new(tokens).parse().unwrap();
    let mut env = Env::new();
    let mut result = Value::Bool(false);
    for form in &forms {
        result = eval(form, &mut env, ROOT_SCOPE).unwrap();
    }
    result
}

#[test]
fn json_scalars_and_escapes() {
    assert_eq!(Value::Int(-12).to_json().unwrap(), "-12");
    assert_eq!(Value::Int(i64::MIN).to_json().unwrap(), "-9223372036854775808");
    assert_eq!(Value::Bool(true).to_json().unwrap(), "true");
    assert_eq!(Value::Float("2.5".to_string()).to_json().unwrap(), "2.5");
    assert_eq!(
        Value::String("a\"b\\c\nd\te\rf".to_string()).to_json().unwrap(),
        "\"a\\\"b\\\\c\\nd\\te\\rf\""
    );
    assert_eq!(escape("plain"), "plain");
    assert_eq!(escape("\"q\""), "\\\"q\\\"");
}

#[test]
fn json_collections() {
    assert_eq!(run("[]").to_json().unwrap(), "[]");
    assert_eq!(run("{}").to_json().unwrap(), "{}");
    assert_eq!(run("[1 [2 3] {:a \"x\"}]").to_json().unwrap(), "[1, [2, 3], {\"a\": \"x\"}]");
}

#[test]
fn functions_are_never_serialized() {
    let f = run("(fn (x) x)");
    assert_eq!(f.to_json().unwrap_err(), "cannot serialize a function to JSON");
    assert_eq!(f.to_yaml().unwrap_err(), "cannot serialize a function to YAML");
    assert_eq!(f.to_toml().unwrap_err(), "cannot serialize a function to TOML");
    let nested = run("{:a [1 (fn () 1)]}");
    assert_eq!(nested.to_json().unwrap_err(), "cannot serialize a function to JSON");
    assert_eq!(nested.to_yaml().unwrap_err(), "cannot serialize a function to YAML");
    assert_eq!(nested.to_toml().unwrap_err(), "cannot serialize a function to TOML");
}

#[test]
fn yaml_block_style() {
    let v = run("{:name \"app\" :ports [80 443] :db {:host \"h\" :port 5432} :tags [] :meta {}}");
    assert_eq!(
        v.to_yaml().unwrap(),
        "name: \"app\"\nports:\n  - 80\n  - 443\ndb:\n  host: \"h\"\n  port: 5432\ntags:\n  []\nmeta:\n  {}"
    );
    assert_eq!(run("[[1 2] {:a 1 :b 2}]").to_yaml().unwrap(), "- - 1\n  - 2\n- a: 1\n  b: 2");
    assert_eq!(Value::Int(5).to_yaml().unwrap(), "5");
    assert_eq!(run("[]").to_yaml().unwrap(), "[]");
}

#[test]
fn toml_documents() {
    let v = run("{:host \"prod\" :port 8080 :tags [\"a\" \"b\"] :db {:user \"u\" :opts {}}}");
    assert_eq!(
        v.to_toml().unwrap(),
        "host = \"prod\"\nport = 8080\ntags = [\"a\", \"b\"]\ndb = { user = \"u\", opts = {  } }"
    );
    assert_eq!(run("{}").to_toml().unwrap(), "");
    assert_eq!(
        Value::Int(1).to_toml().unwrap_err(),
        "TOML output requires a top-level record (mapping)"
    );
    assert_eq!(
        run("[1]").to_toml().unwrap_err(),
        "TOML output requires a top-level record (mapping)"
    );
}
