use emily::ast::Expr;
use emily::lexer::Lexer;
use emily::parser::Parser;

fn parse(src: &str) -> Vec<Expr> {
    let tokens = Lexer::new(src).tokenize().unwrap();
    Parser::new(tokens).parse().unwrap()
}

fn parse_result(src: &str) -> Result<Vec<Expr>, String> {
    let tokens = Lexer::new(src).tokenize().unwrap();
    Parser::new(tokens).parse()
}

#[test]
fn parses_int() {
    assert_eq!(parse("42"), vec![Expr::Int(42)]);
}

#[test]
fn parses_float() {
    let forms = parse("3.14");
    assert_eq!(forms.len(), 1);
    match &forms[0] {
        Expr::Float(text) => assert_eq!(text.parse::<f64>().unwrap(), 3.14),
        other => panic!("expected a float, got {other:?}"),
    }
}

#[test]
fn parses_string() {
    assert_eq!(parse("\"hi\""), vec![Expr::String("hi".to_string())]);
}

#[test]
fn parses_bool() {
    assert_eq!(parse("true"), vec![Expr::Bool(true)]);
    assert_eq!(parse("false"), vec![Expr::Bool(false)]);
}

#[test]
fn parses_symbol() {
    assert_eq!(parse("foo"), vec![Expr::Symbol("foo".to_string())]);
}

#[test]
fn parses_keyword() {
    assert_eq!(parse(":port"), vec![Expr::Keyword("port".to_string())]);
}

#[test]
fn parses_list() {
    assert_eq!(
        parse("(+ 1 2)"),
        vec![Expr::List(vec![
            Expr::Symbol("+".to_string()),
            Expr::Int(1),
            Expr::Int(2),
        ])]
    );
}

#[test]
fn parses_vector() {
    assert_eq!(
        parse("[1 2 3]"),
        vec![Expr::Vector(
            vec![Expr::Int(1), Expr::Int(2), Expr::Int(3),]
        )]
    );
}

#[test]
fn parses_record() {
    assert_eq!(
        parse("{:a 1 :b 2}"),
        vec![Expr::Record(vec![
            ("a".to_string(), Expr::Int(1)),
            ("b".to_string(), Expr::Int(2)),
        ])]
    );
}

#[test]
fn parses_quote() {
    assert_eq!(
        parse("'x"),
        vec![Expr::Quote(Box::new(Expr::Symbol("x".to_string())))]
    );
}

#[test]
fn parses_nested_forms() {
    assert_eq!(
        parse("(+ 1 (* 2 3))"),
        vec![Expr::List(vec![
            Expr::Symbol("+".to_string()),
            Expr::Int(1),
            Expr::List(vec![
                Expr::Symbol("*".to_string()),
                Expr::Int(2),
                Expr::Int(3),
            ]),
        ])]
    );
}

#[test]
fn parses_multiple_top_level_forms() {
    assert_eq!(
        parse("1 2 3"),
        vec![Expr::Int(1), Expr::Int(2), Expr::Int(3)]
    );
}

#[test]
fn errors_on_unterminated_list() {
    assert!(parse_result("(1").is_err());
}

#[test]
fn errors_on_unterminated_record() {
    assert!(parse_result("{:a 1").is_err());
}

#[test]
fn errors_on_unexpected_token() {
    assert!(parse_result(")").is_err());
}

#[test]
fn error_messages() {
    assert_eq!(parse_result("(1").unwrap_err(), "unterminated list (missing ')')");
    assert_eq!(parse_result("[1").unwrap_err(), "unterminated vector (missing ']')");
    assert_eq!(parse_result("{:a 1").unwrap_err(), "unterminated record (missing '}')");
    assert_eq!(parse_result("{1 2}").unwrap_err(), "expected a keyword in record");
    assert_eq!(parse_result(")").unwrap_err(), "unexpected token: RParen");
    assert_eq!(parse_result("(1 ]").unwrap_err(), "unexpected token: RBracket");
    assert_eq!(parse_result("}").unwrap_err(), "unexpected token: RBrace");
    assert_eq!(parse_result(": Int").unwrap_err(), "unexpected token: Colon");
    assert_eq!(parse_result("'").unwrap_err(), "unexpected end of input");
    assert_eq!(parse_result("{:a").unwrap_err(), "unexpected end of input");
}

#[test]
fn parses_other_reader_macros_and_empty_forms() {
    assert_eq!(
        parse("`(a ,b ,@c)"),
        vec![Expr::Quasiquote(Box::new(Expr::List(vec![
            Expr::Symbol("a".to_string()),
            Expr::Unquote(Box::new(Expr::Symbol("b".to_string()))),
            Expr::UnquoteSplice(Box::new(Expr::Symbol("c".to_string()))),
        ])))]
    );
    assert_eq!(
        parse("() [] {}"),
        vec![Expr::List(vec![]), Expr::Vector(vec![]), Expr::Record(vec![])]
    );
    assert_eq!(parse(""), vec![]);
}
