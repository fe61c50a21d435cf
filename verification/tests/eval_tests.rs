//! End-to-end tests for the evaluator: lex → parse → eval a whole program.

use emily::env::{Env, ROOT_SCOPE};
use emily::eval::{eval, eval_in, EvalError};
use emily::lexer::Lexer;
use emily::parser::Parser;
use emily::value::Value;

/// Lex, parse, and evaluate a whole program in a fresh environment,
/// returning the value of the last form.
fn run(src: &str) -> Value {
    let tokens = Lexer::new(src).tokenize().unwrap();
    let forms = Parser::new(tokens).parse().unwrap();
    let mut env = Env::new();
    let mut result = Value::Bool(false);
    for form in &forms {
        result = eval(form, &mut env, ROOT_SCOPE).unwrap();
    }
    result
}

/// Like `run`, but returns the first evaluation error.
fn run_err(src: &str) -> EvalError {
    let tokens = Lexer::new(src).tokenize().unwrap();
    let forms = Parser::new(tokens).parse().unwrap();
    let mut env = Env::new();
    for form in &forms {
        if let Err(e) = eval(form, &mut env, ROOT_SCOPE) {
            return e;
        }
    }
    panic!("expected an evaluation error");
}

#[test]
fn evals_def_then_symbol_lookup() {
    assert!(matches!(run("(def x 42) x"), Value::Int(42)));
}

#[test]
fn evals_let() {
    assert!(matches!(run("(let [x 10 y 5] x)"), Value::Int(10)));
    assert!(matches!(run("(let [x 10 y 5] y)"), Value::Int(5)));
}

#[test]
fn evals_if() {
    assert!(matches!(run("(if true 1 2)"), Value::Int(1)));
    assert!(matches!(run("(if false 1 2)"), Value::Int(2)));
}

#[test]
fn evals_record_and_vector() {
    assert!(matches!(run("{:a 1 :b 2}"), Value::Record(_)));
    assert!(matches!(run("[1 2 3]"), Value::List(_)));
}

#[test]
fn evals_closure_with_captured_variable() {
    assert!(matches!(
        run("(def x 10) (def get-x (fn () x)) (get-x)"),
        Value::Int(10)
    ));
}

#[test]
fn evals_function_with_argument() {
    assert!(matches!(
        run("(def identity (fn (x) x)) (identity 42)"),
        Value::Int(42)
    ));
}

#[test]
fn errors_on_wrong_arity() {
    let tokens = Lexer::new("(def f (fn (a) a)) (f)").tokenize().unwrap();
    let forms = Parser::new(tokens).parse().unwrap();
    let mut env = Env::new();
    eval(&forms[0], &mut env, ROOT_SCOPE).unwrap();
    assert!(eval(&forms[1], &mut env, ROOT_SCOPE).is_err());
}

#[test]
fn let_bindings_are_sequential_and_local() {
    assert!(matches!(run("(let [x 10 y (+ x 5)] (+ x y))"), Value::Int(25)));
    assert!(matches!(run_err("(let [x 1] x) x"), EvalError::UnknownName(n) if n == "x"));
}

#[test]
fn inner_scopes_shadow_outer_ones() {
    assert!(matches!(run("(def x 1) (let [x 2] x)"), Value::Int(2)));
    assert!(matches!(run("(def x 1) (let [x 2] x) x"), Value::Int(1)));
    assert!(matches!(run("(def x 1) (def x 3) x"), Value::Int(3)));
}

#[test]
fn closures_see_later_definitions_in_their_scope() {
    assert!(matches!(run("(def f (fn () y)) (def y 7) (f)"), Value::Int(7)));
}

#[test]
fn builtins() {
    assert!(matches!(run("(+ 1 2 3)"), Value::Int(6)));
    assert!(matches!(run("(+)"), Value::Int(0)));
    assert!(matches!(run("(concat \"a\" \"b\" \"c\")"), Value::String(s) if s == "abc"));
    assert!(matches!(run("(show 42)"), Value::String(s) if s == "42"));
    assert!(matches!(run("(show -7)"), Value::String(s) if s == "-7"));
    assert!(matches!(run("(show true)"), Value::String(s) if s == "true"));
    assert!(matches!(run("(show \"x\")"), Value::String(s) if s == "x"));
    assert!(matches!(run("(show 2.5)"), Value::String(s) if s == "2.5"));
    match run("(append [1 2] 3)") {
        Value::List(items) => {
            assert_eq!(items.len(), 3);
            assert!(matches!(items[2], Value::Int(3)));
        }
        other => panic!("expected a list, got {other:?}"),
    }
    assert!(matches!(run("(fold [1 2 3] 0 (fn (acc x) (+ acc x)))"), Value::Int(6)));
    assert!(matches!(run("(fold [] 5 (fn (acc x) x))"), Value::Int(5)));
}

#[test]
fn merge_later_records_win() {
    match run("(merge {:a 1 :b 2} {:b 3 :c 4})") {
        Value::Record(fields) => {
            let keys: Vec<&str> = fields.iter().map(|(k, _)| k.as_str()).collect();
            assert_eq!(keys, vec!["a", "b", "c"]);
            assert!(matches!(fields[1].1, Value::Int(3)));
        }
        other => panic!("expected a record, got {other:?}"),
    }
}

#[test]
fn field_access() {
    assert!(matches!(run("(def r {:a {:b 5}}) r.a"), Value::Record(_)));
    assert!(matches!(run_err("(def r {:a 1}) r.z"), EvalError::NoField(f) if f == "z"));
    assert!(matches!(run_err("(def r 1) r.z"), EvalError::NotARecord(b) if b == "r"));
    assert!(matches!(run_err("q.z"), EvalError::UnknownName(b) if b == "q"));
}

#[test]
fn evaluation_errors() {
    assert!(matches!(run_err("()"), EvalError::EmptyList));
    assert!(matches!(run_err("(1 2)"), EvalError::HeadNotSymbol));
    assert!(matches!(run_err("(def 1 2)"), EvalError::DefNeedsName));
    assert!(matches!(run_err("(let x 1)"), EvalError::LetNeedsBindings));
    assert!(matches!(run_err("(let [x 1])"), EvalError::LetNeedsBody));
    assert!(matches!(run_err("(let [x] x)"), EvalError::LetOddBindings));
    assert!(matches!(run_err("(let [1 2] 3)"), EvalError::LetNameNotSymbol));
    assert!(matches!(run_err("(if true 1)"), EvalError::IfArity));
    assert!(matches!(run_err("(if 1 2 3)"), EvalError::IfConditionNotBool));
    assert!(matches!(run_err("(fn x x)"), EvalError::FnNeedsParams));
    assert!(matches!(run_err("(fn (1) 1)"), EvalError::FnParamNotSymbol));
    assert!(matches!(run_err("(fn (x))"), EvalError::FnNeedsBody));
    assert!(matches!(
        run_err("(def f (fn (a b) a)) (f 1)"),
        EvalError::ArityMismatch { expected: 2, got: 1 }
    ));
    assert!(matches!(run_err("(nope 1)"), EvalError::UnknownFunction(n) if n == "nope"));
    assert!(matches!(run_err("(def x 1) (x)"), EvalError::NotAFunction(n) if n == "x"));
    assert!(matches!(run_err("(+ 1 \"a\")"), EvalError::AddExpectsNumbers(Value::String(_))));
    assert!(matches!(run_err("(+ 9223372036854775807 1)"), EvalError::AddOverflow));
    assert!(matches!(run_err("(concat \"a\" 1)"), EvalError::ConcatExpectsStrings(Value::Int(1))));
    assert!(matches!(run_err("(show 1 2)"), EvalError::ShowArity));
    assert!(matches!(run_err("(show [1])"), EvalError::CantShow(Value::List(_))));
    assert!(matches!(run_err("(append [1])"), EvalError::AppendArity));
    assert!(matches!(run_err("(append 1 2)"), EvalError::AppendExpectsList));
    assert!(matches!(run_err("(fold [1] 0)"), EvalError::FoldArity));
    assert!(matches!(run_err("(fold 1 0 (fn (a x) a))"), EvalError::FoldExpectsListAndFunction));
    assert!(matches!(run_err("(merge {:a 1} 2)"), EvalError::MergeExpectsRecords(Value::Int(2))));
    assert!(matches!(run_err(":port"), EvalError::NotImplemented(_)));
    assert!(matches!(run_err("'x"), EvalError::NotImplemented(_)));
}

#[test]
fn endless_recursion_is_cut_off() {
    // With a small budget, so that the test runs on a test thread's stack.
    let forms = Parser::new(Lexer::new("(def f (fn () (f))) (f)").tokenize().unwrap())
        .parse()
        .unwrap();
    let mut env = Env::new();
    assert!(eval_in(&forms[0], &mut env, ROOT_SCOPE, 500).is_ok());
    assert!(matches!(
        eval_in(&forms[1], &mut env, ROOT_SCOPE, 500),
        Err(EvalError::TooDeep)
    ));
}

#[test]
fn nesting_deeper_than_a_thousand_levels_is_evaluated() {
    let mut src = String::new();
    for _ in 0..1500 {
        src.push_str("(+ 1 ");
    }
    src.push('0');
    for _ in 0..1500 {
        src.push(')');
    }
    assert!(matches!(run(&src), Value::Int(1500)));
}

#[test]
fn if_evaluates_only_the_taken_branch() {
    // The untaken branch would fail if it were evaluated.
    assert!(matches!(run("(if true 1 (undefined))"), Value::Int(1)));
    assert!(matches!(run("(if false (undefined) 2)"), Value::Int(2)));
}

#[test]
fn calls_and_lets_do_not_leak_bindings() {
    assert!(matches!(run_err("(def f (fn (a) a)) (f 1) a"), EvalError::UnknownName(n) if n == "a"));
    assert!(matches!(run_err("(let [x 1] (def y 2)) y"), EvalError::UnknownName(n) if n == "y"));
    assert!(matches!(run("(def g (fn () (def z 3))) (g)"), Value::Int(3)));
    assert!(matches!(run_err("(def g (fn () (def z 3))) (g) z"), EvalError::UnknownName(n) if n == "z"));
}

#[test]
fn def_returns_and_binds_its_value() {
    assert!(matches!(run("(def x (+ 1 2))"), Value::Int(3)));
    assert!(matches!(run("(def x (+ 1 2)) x"), Value::Int(3)));
}

#[test]
fn evaluation_error_messages() {
    assert_eq!(run_err("nope").message().unwrap(), "unknown name: nope");
    assert_eq!(run_err("(def r {:a 1}) r.b").message().unwrap(), "no field 'b' in record");
    assert_eq!(run_err("(def n 1) n.b").message().unwrap(), "'n' is not a record");
    assert_eq!(run_err("()").message().unwrap(), "empty list");
    assert_eq!(
        run_err("(def f (fn (a b) a)) (f 1)").message().unwrap(),
        "expected 2 arguments, got 1"
    );
    assert_eq!(run_err("(g 1)").message().unwrap(), "unknown function: g");
    assert_eq!(run_err("(def x 1) (x 1)").message().unwrap(), "x is not a function");
    assert_eq!(
        run_err("(if 1 2 3)").message().unwrap(),
        "if condition must be a Bool"
    );
    assert!(run_err("(+ 1 \"a\")").message().is_none());
}
