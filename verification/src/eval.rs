//! The evaluator: walks the expression tree and produces runtime values.
//!
//! [`eval_expr`] is the meaning of an expression: given a nesting budget, the
//! environment and the current scope, the environment after evaluation (`def`,
//! `let` and calls add bindings and scopes) and the value or the error. Special
//! forms (`def`, `let`, `if`, `fn`) and the built-in functions are dispatched
//! by [`spec_eval_list`].
//!
//! The budget bounds how deeply evaluations may nest; it stands for the
//! machine's stack. When it runs out the result is [`EvalError::TooDeep`], so
//! even endless self-application ends with an error.

use vstd::prelude::*;
use crate::ast::{Expr, SpecExpr, exprs_view, fields_view, lemma_exprs_view, lemma_fields_view};
use crate::env::{
    Env, ROOT_SCOPE, SpecScope, define, find_binding, lookup, new_scope, upsert, index_of, upsert_binding,
    lemma_upsert, lemma_binding_index_found,
};
use crate::output::bool_text;
use crate::text::{int_text, int_to_string, nat_digits, push_nat, push_string, str_eq, chars_of, string_of};
use crate::value::{
    Closure, SpecValue, Value, strings_view, values_view, vfields_view, lemma_values_view,
    lemma_vfields_view, lemma_values_view_push, lemma_vfields_view_push,
};

verus! {

/// Why an evaluation failed.
#[derive(Debug)]
pub enum EvalError {
    /// An expression with no meaning yet (quote forms and bare keywords).
    NotImplemented(Expr),
    /// A name that is bound nowhere in scope.
    UnknownName(String),
    /// `base.field` where the record `base` has no such field.
    NoField(String),
    /// `base.field` where `base` is not a record.
    NotARecord(String),
    /// `()`.
    EmptyList,
    /// A list whose head is not a symbol.
    HeadNotSymbol,
    /// `def` without a name.
    DefNeedsName,
    /// `let` without a bindings vector.
    LetNeedsBindings,
    /// `let` without a body.
    LetNeedsBody,
    /// `let` bindings that are not name/value pairs.
    LetOddBindings,
    /// A `let` binding name that is not a symbol.
    LetNameNotSymbol,
    /// `if` without exactly a condition and two branches.
    IfArity,
    /// An `if` condition that is not a boolean.
    IfConditionNotBool,
    /// `fn` without a parameter list.
    FnNeedsParams,
    /// A `fn` parameter that is not a symbol.
    FnParamNotSymbol,
    /// `fn` without a body.
    FnNeedsBody,
    /// A call with the wrong number of arguments.
    ArityMismatch { expected: usize, got: usize },
    /// A call of a name that is bound nowhere.
    UnknownFunction(String),
    /// A call of a name bound to something other than a function.
    NotAFunction(String),
    /// `+` applied to a value that is not an integer.
    AddExpectsNumbers(Value),
    /// `+` whose sum does not fit in an `i64`.
    AddOverflow,
    /// `concat` applied to a value that is not a string.
    ConcatExpectsStrings(Value),
    /// `show` without exactly one argument.
    ShowArity,
    /// `show` of a value that has no text (a list, record or function).
    CantShow(Value),
    /// `append` without exactly a list and a value.
    AppendArity,
    /// `append` whose first argument is not a list.
    AppendExpectsList,
    /// `fold` without exactly a list, an initial value and a function.
    FoldArity,
    /// `fold` whose arguments are not a list and a function.
    FoldExpectsListAndFunction,
    /// `merge` applied to a value that is not a record.
    MergeExpectsRecords(Value),
    /// Evaluations nested deeper than the budget allows.
    TooDeep,
}

/// The model of an [`EvalError`].
pub enum SpecEvalError {
    NotImplemented(SpecExpr),
    UnknownName(Seq<char>),
    NoField(Seq<char>),
    NotARecord(Seq<char>),
    EmptyList,
    HeadNotSymbol,
    DefNeedsName,
    LetNeedsBindings,
    LetNeedsBody,
    LetOddBindings,
    LetNameNotSymbol,
    IfArity,
    IfConditionNotBool,
    FnNeedsParams,
    FnParamNotSymbol,
    FnNeedsBody,
    ArityMismatch { expected: nat, got: nat },
    UnknownFunction(Seq<char>),
    NotAFunction(Seq<char>),
    AddExpectsNumbers(SpecValue),
    AddOverflow,
    ConcatExpectsStrings(SpecValue),
    ShowArity,
    CantShow(SpecValue),
    AppendArity,
    AppendExpectsList,
    FoldArity,
    FoldExpectsListAndFunction,
    MergeExpectsRecords(SpecValue),
    TooDeep,
}

impl View for EvalError {
    type V = SpecEvalError;

    open spec fn view(&self) -> SpecEvalError {
        match self {
            EvalError::NotImplemented(e) => SpecEvalError::NotImplemented(e@),
            EvalError::UnknownName(n) => SpecEvalError::UnknownName(n@),
            EvalError::NoField(n) => SpecEvalError::NoField(n@),
            EvalError::NotARecord(n) => SpecEvalError::NotARecord(n@),
            EvalError::EmptyList => SpecEvalError::EmptyList,
            EvalError::HeadNotSymbol => SpecEvalError::HeadNotSymbol,
            EvalError::DefNeedsName => SpecEvalError::DefNeedsName,
            EvalError::LetNeedsBindings => SpecEvalError::LetNeedsBindings,
            EvalError::LetNeedsBody => SpecEvalError::LetNeedsBody,
            EvalError::LetOddBindings => SpecEvalError::LetOddBindings,
            EvalError::LetNameNotSymbol => SpecEvalError::LetNameNotSymbol,
            EvalError::IfArity => SpecEvalError::IfArity,
            EvalError::IfConditionNotBool => SpecEvalError::IfConditionNotBool,
            EvalError::FnNeedsParams => SpecEvalError::FnNeedsParams,
            EvalError::FnParamNotSymbol => SpecEvalError::FnParamNotSymbol,
            EvalError::FnNeedsBody => SpecEvalError::FnNeedsBody,
            EvalError::ArityMismatch { expected, got } => SpecEvalError::ArityMismatch {
                expected: *expected as nat,
                got: *got as nat,
            },
            EvalError::UnknownFunction(n) => SpecEvalError::UnknownFunction(n@),
            EvalError::NotAFunction(n) => SpecEvalError::NotAFunction(n@),
            EvalError::AddExpectsNumbers(v) => SpecEvalError::AddExpectsNumbers(v@),
            EvalError::AddOverflow => SpecEvalError::AddOverflow,
            EvalError::ConcatExpectsStrings(v) => SpecEvalError::ConcatExpectsStrings(v@),
            EvalError::ShowArity => SpecEvalError::ShowArity,
            EvalError::CantShow(v) => SpecEvalError::CantShow(v@),
            EvalError::AppendArity => SpecEvalError::AppendArity,
            EvalError::AppendExpectsList => SpecEvalError::AppendExpectsList,
            EvalError::FoldArity => SpecEvalError::FoldArity,
            EvalError::FoldExpectsListAndFunction => SpecEvalError::FoldExpectsListAndFunction,
            EvalError::MergeExpectsRecords(v) => SpecEvalError::MergeExpectsRecords(v@),
            EvalError::TooDeep => SpecEvalError::TooDeep,
        }
    }
}

/// The model of an evaluation result.
pub open spec fn result_view(r: Result<Value, EvalError>) -> Result<SpecValue, SpecEvalError> {
    match r {
        Ok(v) => Ok(v@),
        Err(e) => Err(e@),
    }
}

/// The message of an evaluation error, for the errors whose message is made
/// of text and numbers only; `None` for those that show an expression or a
/// value in its debug form.
pub open spec fn error_message(e: SpecEvalError) -> Option<Seq<char>> {
    match e {
        SpecEvalError::UnknownName(n) => Some("unknown name: "@ + n),
        SpecEvalError::NoField(f) => Some("no field '"@ + f + "' in record"@),
        SpecEvalError::NotARecord(b) => Some("'"@ + b + "' is not a record"@),
        SpecEvalError::EmptyList => Some("empty list"@),
        SpecEvalError::HeadNotSymbol => Some("list must start with a symbol"@),
        SpecEvalError::DefNeedsName => Some("def needs a name"@),
        SpecEvalError::LetNeedsBindings => Some("let needs a bindings vector"@),
        SpecEvalError::LetNeedsBody => Some("let needs a body"@),
        SpecEvalError::LetOddBindings => Some("let bindings must be name/value pairs"@),
        SpecEvalError::LetNameNotSymbol => Some("let binding name must be a symbol"@),
        SpecEvalError::IfArity => Some("if needs a condition, then-branch, and else-branch"@),
        SpecEvalError::IfConditionNotBool => Some("if condition must be a Bool"@),
        SpecEvalError::FnNeedsParams => Some("fn needs a parameter list"@),
        SpecEvalError::FnParamNotSymbol => Some("fn parameters must be symbols"@),
        SpecEvalError::FnNeedsBody => Some("fn needs a body"@),
        SpecEvalError::AddOverflow => Some("+ overflowed the integer range"@),
        SpecEvalError::ShowArity => Some("show expects one argument"@),
        SpecEvalError::AppendArity => Some("append expects a list and a value"@),
        SpecEvalError::AppendExpectsList => Some("append expects a list as its first argument"@),
        SpecEvalError::FoldArity => Some("fold expects a list, an initial value, and a function"@),
        SpecEvalError::FoldExpectsListAndFunction => Some("fold expects a list and a function"@),
        SpecEvalError::TooDeep => Some("evaluation nested too deeply"@),
        SpecEvalError::ArityMismatch { expected, got } => Some(
            "expected "@ + nat_digits(expected) + " arguments, got "@ + nat_digits(got),
        ),
        SpecEvalError::UnknownFunction(n) => Some("unknown function: "@ + n),
        SpecEvalError::NotAFunction(n) => Some(n + " is not a function"@),
        _ => None,
    }
}

impl EvalError {
    /// The message of this error, where it is made of text and numbers only;
    /// `None` for the errors that show an expression or a value in its debug
    /// form.
    pub fn message(&self) -> (r: Option<String>)
        ensures
            (match r {
                Some(m) => Some(m@),
                None => None,
            }) == error_message(self@),
    {
        match self {
            EvalError::UnknownName(n) => {
                let mut m = String::from_str("unknown name: ");
                push_string(&mut m, n);
                Some(m)
            },
            EvalError::NoField(f) => {
                let mut m = String::from_str("no field '");
                push_string(&mut m, f);
                m.append("' in record");
                Some(m)
            },
            EvalError::NotARecord(b) => {
                let mut m = String::from_str("'");
                push_string(&mut m, b);
                m.append("' is not a record");
                Some(m)
            },
            EvalError::EmptyList => Some(String::from_str("empty list")),
            EvalError::HeadNotSymbol => Some(String::from_str("list must start with a symbol")),
            EvalError::DefNeedsName => Some(String::from_str("def needs a name")),
            EvalError::LetNeedsBindings => Some(String::from_str("let needs a bindings vector")),
            EvalError::LetNeedsBody => Some(String::from_str("let needs a body")),
            EvalError::LetOddBindings => Some(String::from_str("let bindings must be name/value pairs")),
            EvalError::LetNameNotSymbol => Some(String::from_str("let binding name must be a symbol")),
            EvalError::IfArity => Some(String::from_str("if needs a condition, then-branch, and else-branch")),
            EvalError::IfConditionNotBool => Some(String::from_str("if condition must be a Bool")),
            EvalError::FnNeedsParams => Some(String::from_str("fn needs a parameter list")),
            EvalError::FnParamNotSymbol => Some(String::from_str("fn parameters must be symbols")),
            EvalError::FnNeedsBody => Some(String::from_str("fn needs a body")),
            EvalError::AddOverflow => Some(String::from_str("+ overflowed the integer range")),
            EvalError::ShowArity => Some(String::from_str("show expects one argument")),
            EvalError::AppendArity => Some(String::from_str("append expects a list and a value")),
            EvalError::AppendExpectsList => Some(String::from_str("append expects a list as its first argument")),
            EvalError::FoldArity => Some(String::from_str("fold expects a list, an initial value, and a function")),
            EvalError::FoldExpectsListAndFunction => Some(String::from_str("fold expects a list and a function")),
            EvalError::TooDeep => Some(String::from_str("evaluation nested too deeply")),
            EvalError::ArityMismatch { expected, got } => {
                let mut m = String::from_str("expected ");
                push_nat(&mut m, *expected as u64);
                m.append(" arguments, got ");
                push_nat(&mut m, *got as u64);
                Some(m)
            },
            EvalError::UnknownFunction(n) => {
                let mut m = String::from_str("unknown function: ");
                push_string(&mut m, n);
                Some(m)
            },
            EvalError::NotAFunction(n) => {
                let mut m = n.clone();
                m.append(" is not a function");
                Some(m)
            },
            _ => None,
        }
    }
}

/// The environment after an evaluation, and its value or error.
pub type Outcome = (Seq<SpecScope>, Result<SpecValue, SpecEvalError>);

/// The nesting budget of [`eval`] and [`run_program`].
///
/// One level of nesting takes well under 10 KiB of stack here, so a program
/// run on a 1 GiB stack (as the command-line program does) meets this budget
/// before the stack runs out; a program nested that deeply would already
/// overflow a default 8 MiB stack.
pub const MAX_DEPTH: u64 = 100000;

// ---------------------------------------------------------------------------
// The meaning of expressions
// ---------------------------------------------------------------------------

/// The position of the first occurrence of `c` in `s`.
pub open spec fn char_index(s: Seq<char>, c: char) -> Option<nat>
    decreases s.len(),
{
    if s.len() == 0 {
        None
    } else {
        match char_index(s.drop_last(), c) {
            Some(k) => Some(k),
            None => if s.last() == c {
                Some((s.len() - 1) as nat)
            } else {
                None
            },
        }
    }
}

/// A symbol: `base.field` is field access (split at the first `.`);
/// otherwise it is a plain lookup.
pub open spec fn spec_eval_symbol(env: Seq<SpecScope>, sc: nat, name: Seq<char>) -> Result<
    SpecValue,
    SpecEvalError,
> {
    match char_index(name, '.') {
        Some(k) => {
            let base = name.subrange(0, k as int);
            let field = name.subrange(k + 1 as int, name.len() as int);
            match lookup(env, sc, base) {
                None => Err(SpecEvalError::UnknownName(base)),
                Some(SpecValue::Record(fields)) => match find_binding(fields, field) {
                    Some(v) => Ok(v),
                    None => Err(SpecEvalError::NoField(field)),
                },
                Some(_) => Err(SpecEvalError::NotARecord(base)),
            }
        },
        None => match lookup(env, sc, name) {
            Some(v) => Ok(v),
            None => Err(SpecEvalError::UnknownName(name)),
        },
    }
}

/// Evaluates an expression in scope `sc`, nesting at most `fuel` deep.
pub open spec fn eval_expr(fuel: nat, e: SpecExpr, env: Seq<SpecScope>, sc: nat) -> Outcome
    decreases fuel, 0nat, 0nat,
{
    if fuel == 0 {
        (env, Err(SpecEvalError::TooDeep))
    } else {
        let f = (fuel - 1) as nat;
        match e {
            SpecExpr::Int(n) => (env, Ok(SpecValue::Int(n))),
            SpecExpr::Float(t) => (env, Ok(SpecValue::Float(t))),
            SpecExpr::String(s) => (env, Ok(SpecValue::String(s))),
            SpecExpr::Bool(b) => (env, Ok(SpecValue::Bool(b))),
            SpecExpr::Symbol(name) => (env, spec_eval_symbol(env, sc, name)),
            SpecExpr::Vector(items) => {
                let (env2, r) = eval_seq(f, items, 0, env, sc, seq![]);
                (
                    env2,
                    match r {
                        Ok(vs) => Ok(SpecValue::List(vs)),
                        Err(x) => Err(x),
                    },
                )
            },
            SpecExpr::Record(fields) => {
                let (env2, r) = eval_fields(f, fields, 0, env, sc, seq![]);
                (
                    env2,
                    match r {
                        Ok(fs) => Ok(SpecValue::Record(fs)),
                        Err(x) => Err(x),
                    },
                )
            },
            SpecExpr::List(items) => spec_eval_list(f, items, env, sc),
            other => (env, Err(SpecEvalError::NotImplemented(other))),
        }
    }
}

/// Evaluates `items[i..]` in order, after the values `acc`.
pub open spec fn eval_seq(
    fuel: nat,
    items: Seq<SpecExpr>,
    i: nat,
    env: Seq<SpecScope>,
    sc: nat,
    acc: Seq<SpecValue>,
) -> (Seq<SpecScope>, Result<Seq<SpecValue>, SpecEvalError>)
    decreases fuel, 1nat, items.len() - i,
{
    if i >= items.len() {
        (env, Ok(acc))
    } else {
        let (env2, r) = eval_expr(fuel, items[i as int], env, sc);
        match r {
            Err(x) => (env2, Err(x)),
            Ok(v) => eval_seq(fuel, items, i + 1, env2, sc, acc.push(v)),
        }
    }
}

/// Evaluates the values of the record fields `fields[i..]` in order.
pub open spec fn eval_fields(
    fuel: nat,
    fields: Seq<(Seq<char>, SpecExpr)>,
    i: nat,
    env: Seq<SpecScope>,
    sc: nat,
    acc: Seq<(Seq<char>, SpecValue)>,
) -> (Seq<SpecScope>, Result<Seq<(Seq<char>, SpecValue)>, SpecEvalError>)
    decreases fuel, 1nat, fields.len() - i,
{
    if i >= fields.len() {
        (env, Ok(acc))
    } else {
        let (env2, r) = eval_expr(fuel, fields[i as int].1, env, sc);
        match r {
            Err(x) => (env2, Err(x)),
            Ok(v) => eval_fields(fuel, fields, i + 1, env2, sc, acc.push((fields[i as int].0, v))),
        }
    }
}

/// Evaluates a list by dispatching on its head symbol.
pub open spec fn spec_eval_list(fuel: nat, items: Seq<SpecExpr>, env: Seq<SpecScope>, sc: nat) -> Outcome
    decreases fuel, 4nat, 0nat,
{
    if items.len() == 0 {
        (env, Err(SpecEvalError::EmptyList))
    } else {
        let args = items.subrange(1, items.len() as int);
        match items[0] {
            SpecExpr::Symbol(name) => if name == "def"@ {
                spec_eval_def(fuel, args, env, sc)
            } else if name == "let"@ {
                spec_eval_let(fuel, args, env, sc)
            } else if name == "if"@ {
                spec_eval_if(fuel, args, env, sc)
            } else if name == "fn"@ {
                (env, spec_eval_fn(args, sc))
            } else if name == "+"@ {
                spec_builtin_add(fuel, args, 0, env, sc, 0)
            } else if name == "concat"@ {
                spec_builtin_concat(fuel, args, 0, env, sc, seq![])
            } else if name == "show"@ {
                spec_builtin_show(fuel, args, env, sc)
            } else if name == "fold"@ {
                spec_builtin_fold(fuel, args, env, sc)
            } else if name == "append"@ {
                spec_builtin_append(fuel, args, env, sc)
            } else if name == "merge"@ {
                spec_builtin_merge(fuel, args, 0, env, sc, seq![])
            } else {
                spec_apply_function(fuel, name, args, env, sc)
            },
            _ => (env, Err(SpecEvalError::HeadNotSymbol)),
        }
    }
}

/// `(def name expr)`: binds `name` in the current scope to the value of the
/// last argument.
pub open spec fn spec_eval_def(fuel: nat, args: Seq<SpecExpr>, env: Seq<SpecScope>, sc: nat) -> Outcome
    decreases fuel, 2nat, 0nat,
{
    if args.len() == 0 {
        (env, Err(SpecEvalError::DefNeedsName))
    } else {
        match args[0] {
            SpecExpr::Symbol(name) => {
                let (env2, r) = eval_expr(fuel, args.last(), env, sc);
                match r {
                    Ok(v) => (define(env2, sc, name, v), Ok(v)),
                    Err(x) => (env2, Err(x)),
                }
            },
            _ => (env, Err(SpecEvalError::DefNeedsName)),
        }
    }
}

/// `(let [name value ...] body)`: a fresh child scope with sequential
/// bindings, in which the body is evaluated.
pub open spec fn spec_eval_let(fuel: nat, args: Seq<SpecExpr>, env: Seq<SpecScope>, sc: nat) -> Outcome
    decreases fuel, 2nat, 0nat,
{
    if args.len() == 0 {
        (env, Err(SpecEvalError::LetNeedsBindings))
    } else {
        match args[0] {
            SpecExpr::Vector(bs) => if args.len() < 2 {
                (env, Err(SpecEvalError::LetNeedsBody))
            } else if bs.len() % 2 != 0 {
                (env, Err(SpecEvalError::LetOddBindings))
            } else {
                let child = env.len();
                let (env2, r) = spec_let_bindings(fuel, bs, 0, new_scope(env, sc), child);
                match r {
                    Ok(_) => eval_expr(fuel, args[1], env2, child),
                    Err(x) => (env2, Err(x)),
                }
            },
            _ => (env, Err(SpecEvalError::LetNeedsBindings)),
        }
    }
}

/// The `let` bindings `bs[i..]`, each evaluated in and bound to scope `child`.
pub open spec fn spec_let_bindings(
    fuel: nat,
    bs: Seq<SpecExpr>,
    i: nat,
    env: Seq<SpecScope>,
    child: nat,
) -> (Seq<SpecScope>, Result<(), SpecEvalError>)
    decreases fuel, 1nat, bs.len() - i,
{
    if i >= bs.len() {
        (env, Ok(()))
    } else {
        match bs[i as int] {
            SpecExpr::Symbol(name) => if i + 1 < bs.len() {
                let (env2, r) = eval_expr(fuel, bs[i + 1 as int], env, child);
                match r {
                    Ok(v) => spec_let_bindings(fuel, bs, i + 2, define(env2, child, name, v), child),
                    Err(x) => (env2, Err(x)),
                }
            } else {
                (env, Ok(()))
            },
            _ => (env, Err(SpecEvalError::LetNameNotSymbol)),
        }
    }
}

/// `(if cond then else)`: evaluates exactly one branch.
pub open spec fn spec_eval_if(fuel: nat, args: Seq<SpecExpr>, env: Seq<SpecScope>, sc: nat) -> Outcome
    decreases fuel, 2nat, 0nat,
{
    if args.len() != 3 {
        (env, Err(SpecEvalError::IfArity))
    } else {
        let (env2, r) = eval_expr(fuel, args[0], env, sc);
        match r {
            Ok(SpecValue::Bool(b)) => if b {
                eval_expr(fuel, args[1], env2, sc)
            } else {
                eval_expr(fuel, args[2], env2, sc)
            },
            Ok(_) => (env2, Err(SpecEvalError::IfConditionNotBool)),
            Err(x) => (env2, Err(x)),
        }
    }
}

/// `(if cond then else)` evaluates exactly one branch: the one the condition
/// selects, in the environment the condition left.
pub proof fn law_if_runs_one_branch(
    fuel: nat,
    c: SpecExpr,
    t: SpecExpr,
    e: SpecExpr,
    env: Seq<SpecScope>,
    sc: nat,
)
    ensures
        ({
            let (env2, r) = eval_expr(fuel, c, env, sc);
            &&& r == Ok::<SpecValue, SpecEvalError>(SpecValue::Bool(true)) ==> spec_eval_if(
                fuel,
                seq![c, t, e],
                env,
                sc,
            ) == eval_expr(fuel, t, env2, sc)
            &&& r == Ok::<SpecValue, SpecEvalError>(SpecValue::Bool(false)) ==> spec_eval_if(
                fuel,
                seq![c, t, e],
                env,
                sc,
            ) == eval_expr(fuel, e, env2, sc)
        }),
{
}

/// The names of a parameter list, if all are symbols.
pub open spec fn param_names(ps: Seq<SpecExpr>) -> Option<Seq<Seq<char>>>
    decreases ps.len(),
{
    if ps.len() == 0 {
        Some(seq![])
    } else {
        match param_names(ps.drop_last()) {
            None => None,
            Some(ns) => match ps.last() {
                SpecExpr::Symbol(n) => Some(ns.push(n)),
                _ => None,
            },
        }
    }
}

/// `(fn (args) body)`: a closure capturing scope `sc`.
pub open spec fn spec_eval_fn(args: Seq<SpecExpr>, sc: nat) -> Result<SpecValue, SpecEvalError> {
    if args.len() == 0 {
        Err(SpecEvalError::FnNeedsParams)
    } else {
        match args[0] {
            SpecExpr::List(ps) => match param_names(ps) {
                None => Err(SpecEvalError::FnParamNotSymbol),
                Some(names) => if args.len() < 2 {
                    Err(SpecEvalError::FnNeedsBody)
                } else {
                    Ok(SpecValue::Closure { params: names, body: args[1], env: sc })
                },
            },
            _ => Err(SpecEvalError::FnNeedsParams),
        }
    }
}

/// Binds `params[i..]` to `vals[i..]` in scope `id`, in order.
pub open spec fn bind_params(
    env: Seq<SpecScope>,
    id: nat,
    params: Seq<Seq<char>>,
    vals: Seq<SpecValue>,
    i: nat,
) -> Seq<SpecScope>
    decreases params.len() - i,
{
    if i >= params.len() {
        env
    } else {
        bind_params(define(env, id, params[i as int], vals[i as int]), id, params, vals, i + 1)
    }
}

/// Calls a closure with already-evaluated arguments: a child scope of the
/// closure's captured scope binds the parameters, and the body is evaluated
/// there.
pub open spec fn spec_call_closure(
    fuel: nat,
    params: Seq<Seq<char>>,
    body: SpecExpr,
    cenv: nat,
    vals: Seq<SpecValue>,
    env: Seq<SpecScope>,
) -> Outcome
    decreases fuel, 1nat, 0nat,
{
    if vals.len() != params.len() {
        (env, Err(SpecEvalError::ArityMismatch { expected: params.len(), got: vals.len() }))
    } else {
        let id = env.len();
        let env1 = bind_params(new_scope(env, cenv), id, params, vals, 0);
        eval_expr(fuel, body, env1, id)
    }
}

/// Calls the function bound to `name` with the values of `args`.
pub open spec fn spec_apply_function(
    fuel: nat,
    name: Seq<char>,
    args: Seq<SpecExpr>,
    env: Seq<SpecScope>,
    sc: nat,
) -> Outcome
    decreases fuel, 2nat, 0nat,
{
    match lookup(env, sc, name) {
        None => (env, Err(SpecEvalError::UnknownFunction(name))),
        Some(SpecValue::Closure { params, body, env: cenv }) => {
            let (env2, r) = eval_seq(fuel, args, 0, env, sc, seq![]);
            match r {
                Ok(vals) => spec_call_closure(fuel, params, body, cenv, vals, env2),
                Err(x) => (env2, Err(x)),
            }
        },
        Some(_) => (env, Err(SpecEvalError::NotAFunction(name))),
    }
}

/// `(+ a b ...)`: the sum of the integer arguments `args[i..]`, after `total`.
pub open spec fn spec_builtin_add(
    fuel: nat,
    args: Seq<SpecExpr>,
    i: nat,
    env: Seq<SpecScope>,
    sc: nat,
    total: i64,
) -> Outcome
    decreases fuel, 1nat, args.len() - i,
{
    if i >= args.len() {
        (env, Ok(SpecValue::Int(total)))
    } else {
        let (env2, r) = eval_expr(fuel, args[i as int], env, sc);
        match r {
            Ok(SpecValue::Int(n)) => if i64::MIN <= total + n && total + n <= i64::MAX {
                spec_builtin_add(fuel, args, i + 1, env2, sc, (total + n) as i64)
            } else {
                (env2, Err(SpecEvalError::AddOverflow))
            },
            Ok(other) => (env2, Err(SpecEvalError::AddExpectsNumbers(other))),
            Err(x) => (env2, Err(x)),
        }
    }
}

/// `(concat a b ...)`: the string arguments `args[i..]` joined, after `acc`.
pub open spec fn spec_builtin_concat(
    fuel: nat,
    args: Seq<SpecExpr>,
    i: nat,
    env: Seq<SpecScope>,
    sc: nat,
    acc: Seq<char>,
) -> Outcome
    decreases fuel, 1nat, args.len() - i,
{
    if i >= args.len() {
        (env, Ok(SpecValue::String(acc)))
    } else {
        let (env2, r) = eval_expr(fuel, args[i as int], env, sc);
        match r {
            Ok(SpecValue::String(s)) => spec_builtin_concat(fuel, args, i + 1, env2, sc, acc + s),
            Ok(other) => (env2, Err(SpecEvalError::ConcatExpectsStrings(other))),
            Err(x) => (env2, Err(x)),
        }
    }
}

/// The text `show` gives for a value, if it has one.
pub open spec fn show_text(v: SpecValue) -> Option<Seq<char>> {
    match v {
        SpecValue::Int(n) => Some(int_text(n as int)),
        SpecValue::Float(t) => Some(t),
        SpecValue::String(s) => Some(s),
        SpecValue::Bool(b) => Some(bool_text(b)),
        _ => None,
    }
}

/// `(show x)`: the value as a string.
pub open spec fn spec_builtin_show(fuel: nat, args: Seq<SpecExpr>, env: Seq<SpecScope>, sc: nat) -> Outcome
    decreases fuel, 2nat, 0nat,
{
    if args.len() != 1 {
        (env, Err(SpecEvalError::ShowArity))
    } else {
        let (env2, r) = eval_expr(fuel, args[0], env, sc);
        match r {
            Ok(v) => match show_text(v) {
                Some(t) => (env2, Ok(SpecValue::String(t))),
                None => (env2, Err(SpecEvalError::CantShow(v))),
            },
            Err(x) => (env2, Err(x)),
        }
    }
}

/// `(append list value)`: the list with `value` added at the end.
pub open spec fn spec_builtin_append(
    fuel: nat,
    args: Seq<SpecExpr>,
    env: Seq<SpecScope>,
    sc: nat,
) -> Outcome
    decreases fuel, 2nat, 0nat,
{
    if args.len() != 2 {
        (env, Err(SpecEvalError::AppendArity))
    } else {
        let (env2, r1) = eval_expr(fuel, args[0], env, sc);
        match r1 {
            Err(x) => (env2, Err(x)),
            Ok(list) => {
                let (env3, r2) = eval_expr(fuel, args[1], env2, sc);
                match r2 {
                    Err(x) => (env3, Err(x)),
                    Ok(v) => match list {
                        SpecValue::List(items) => (env3, Ok(SpecValue::List(items.push(v)))),
                        _ => (env3, Err(SpecEvalError::AppendExpectsList)),
                    },
                }
            },
        }
    }
}

/// `(fold list initial (fn (acc x) body))`: reduces a list with a function.
pub open spec fn spec_builtin_fold(fuel: nat, args: Seq<SpecExpr>, env: Seq<SpecScope>, sc: nat) -> Outcome
    decreases fuel, 3nat, 0nat,
{
    if args.len() != 3 {
        (env, Err(SpecEvalError::FoldArity))
    } else {
        let (env2, r1) = eval_expr(fuel, args[0], env, sc);
        match r1 {
            Err(x) => (env2, Err(x)),
            Ok(list) => {
                let (env3, r2) = eval_expr(fuel, args[1], env2, sc);
                match r2 {
                    Err(x) => (env3, Err(x)),
                    Ok(acc) => {
                        let (env4, r3) = eval_expr(fuel, args[2], env3, sc);
                        match r3 {
                            Err(x) => (env4, Err(x)),
                            Ok(func) => match (list, func) {
                                (
                                    SpecValue::List(items),
                                    SpecValue::Closure { params, body, env: cenv },
                                ) => spec_fold_items(fuel, params, body, cenv, items, 0, acc, env4),
                                _ => (env4, Err(SpecEvalError::FoldExpectsListAndFunction)),
                            },
                        }
                    },
                }
            },
        }
    }
}

/// Applies the closure to the accumulator and each of `items[i..]` in turn.
pub open spec fn spec_fold_items(
    fuel: nat,
    params: Seq<Seq<char>>,
    body: SpecExpr,
    cenv: nat,
    items: Seq<SpecValue>,
    i: nat,
    acc: SpecValue,
    env: Seq<SpecScope>,
) -> Outcome
    decreases fuel, 2nat, items.len() - i,
{
    if i >= items.len() {
        (env, Ok(acc))
    } else {
        let (env2, r) = spec_call_closure(fuel, params, body, cenv, seq![acc, items[i as int]], env);
        match r {
            Ok(a) => spec_fold_items(fuel, params, body, cenv, items, i + 1, a, env2),
            Err(x) => (env2, Err(x)),
        }
    }
}

/// The record `m` with the fields `fs` merged in, in order: a key already
/// present is updated in place, a new key is added at the end.
pub open spec fn merge_fields(m: Seq<(Seq<char>, SpecValue)>, fs: Seq<(Seq<char>, SpecValue)>) -> Seq<
    (Seq<char>, SpecValue),
>
    decreases fs.len(),
{
    if fs.len() == 0 {
        m
    } else {
        upsert(merge_fields(m, fs.drop_last()), fs.last().0, fs.last().1)
    }
}

/// The value of the last binding of `name` in `fs`.
pub open spec fn last_binding(fs: Seq<(Seq<char>, SpecValue)>, name: Seq<char>) -> Option<SpecValue>
    decreases fs.len(),
{
    if fs.len() == 0 {
        None
    } else if fs.last().0 == name {
        Some(fs.last().1)
    } else {
        last_binding(fs.drop_last(), name)
    }
}

/// Later records override earlier keys: after merging the fields `fs` into
/// `m`, a key has the value of its last binding in `fs`, or its value in `m`
/// when `fs` does not bind it.
pub proof fn law_merge_later_wins(
    m: Seq<(Seq<char>, SpecValue)>,
    fs: Seq<(Seq<char>, SpecValue)>,
    name: Seq<char>,
)
    ensures
        find_binding(merge_fields(m, fs), name) == match last_binding(fs, name) {
            Some(v) => Some(v),
            None => find_binding(m, name),
        },
    decreases fs.len(),
{
    if fs.len() > 0 {
        law_merge_later_wins(m, fs.drop_last(), name);
        lemma_upsert(merge_fields(m, fs.drop_last()), fs.last().0, fs.last().1, name);
    }
}

/// Merging keeps the order of the keys already present: each stays at its
/// position, and new keys come after them.
pub proof fn law_merge_keeps_key_order(
    m: Seq<(Seq<char>, SpecValue)>,
    fs: Seq<(Seq<char>, SpecValue)>,
    k: int,
)
    requires
        0 <= k < m.len(),
    ensures
        m.len() <= merge_fields(m, fs).len(),
        merge_fields(m, fs)[k].0 == m[k].0,
    decreases fs.len(),
{
    if fs.len() > 0 {
        law_merge_keeps_key_order(m, fs.drop_last(), k);
        let prev = merge_fields(m, fs.drop_last());
        lemma_binding_index_found(prev, fs.last().0);
    }
}

/// `(merge a b ...)`: combines the records `args[i..]` into `merged`; later
/// records override earlier keys.
pub open spec fn spec_builtin_merge(
    fuel: nat,
    args: Seq<SpecExpr>,
    i: nat,
    env: Seq<SpecScope>,
    sc: nat,
    merged: Seq<(Seq<char>, SpecValue)>,
) -> Outcome
    decreases fuel, 1nat, args.len() - i,
{
    if i >= args.len() {
        (env, Ok(SpecValue::Record(merged)))
    } else {
        let (env2, r) = eval_expr(fuel, args[i as int], env, sc);
        match r {
            Ok(SpecValue::Record(fs)) => spec_builtin_merge(
                fuel,
                args,
                i + 1,
                env2,
                sc,
                merge_fields(merged, fs),
            ),
            Ok(other) => (env2, Err(SpecEvalError::MergeExpectsRecords(other))),
            Err(x) => (env2, Err(x)),
        }
    }
}

// ---------------------------------------------------------------------------
// Lemmas
// ---------------------------------------------------------------------------

proof fn lemma_char_index_found(s: Seq<char>, c: char)
    ensures
        char_index(s, c) matches Some(k) ==> k < s.len() && s[k as int] == c,
        char_index(s, c) is None ==> forall|k: int| 0 <= k < s.len() ==> #[trigger] s[k] != c,
    decreases s.len(),
{
    if s.len() > 0 {
        lemma_char_index_found(s.drop_last(), c);
        if char_index(s, c) is None {
            assert forall|k: int| 0 <= k < s.len() implies #[trigger] s[k] != c by {
                if k < s.len() - 1 {
                    assert(s.drop_last()[k] == s[k]);
                }
            }
        }
    }
}

proof fn lemma_char_index_first(s: Seq<char>, c: char, j: int)
    requires
        0 <= j < s.len(),
        s[j] == c,
        forall|i: int| 0 <= i < j ==> #[trigger] s[i] != c,
    ensures
        char_index(s, c) == Some(j as nat),
    decreases s.len(),
{
    let p = s.drop_last();
    if j < s.len() - 1 {
        assert forall|i: int| 0 <= i < j implies #[trigger] p[i] != c by {
            assert(p[i] == s[i]);
        }
        lemma_char_index_first(p, c, j);
    } else {
        lemma_char_index_found(p, c);
        if let Some(k) = char_index(p, c) {
            assert(p[k as int] == s[k as int]);
        }
    }
}

proof fn lemma_param_names_step(ps: Seq<SpecExpr>, k: int)
    requires
        0 <= k < ps.len(),
    ensures
        param_names(ps.subrange(0, k + 1)) == (match param_names(ps.subrange(0, k)) {
            None => None,
            Some(ns) => match ps[k] {
                SpecExpr::Symbol(n) => Some(ns.push(n)),
                _ => None,
            },
        }),
{
    assert(ps.subrange(0, k + 1).drop_last() =~= ps.subrange(0, k));
}

proof fn lemma_param_names_none(ps: Seq<SpecExpr>, k: int)
    requires
        0 <= k <= ps.len(),
        param_names(ps.subrange(0, k)) is None,
    ensures
        param_names(ps) is None,
    decreases ps.len() - k,
{
    if k < ps.len() {
        lemma_param_names_step(ps, k);
        lemma_param_names_none(ps, k + 1);
    } else {
        assert(ps.subrange(0, k) =~= ps);
    }
}

/// The model of a sequence-evaluation result.
pub open spec fn values_result_view(r: Result<Vec<Value>, EvalError>) -> Result<
    Seq<SpecValue>,
    SpecEvalError,
> {
    match r {
        Ok(v) => Ok(values_view(v@)),
        Err(e) => Err(e@),
    }
}

/// The model of a record-evaluation result.
pub open spec fn fields_result_view(r: Result<Vec<(String, Value)>, EvalError>) -> Result<
    Seq<(Seq<char>, SpecValue)>,
    SpecEvalError,
> {
    match r {
        Ok(v) => Ok(vfields_view(v@)),
        Err(e) => Err(e@),
    }
}

/// The arguments of a list form: its items after the head.
pub open spec fn args_of(items: Seq<Expr>) -> Seq<SpecExpr> {
    exprs_view(items).subrange(1, items.len() as int)
}

// ---------------------------------------------------------------------------
// The evaluator
// ---------------------------------------------------------------------------

/// Evaluates an expression in scope `scope` of `env`, with the nesting budget
/// [`MAX_DEPTH`].
///
/// Atoms evaluate to themselves, symbols are looked up (or treated as field
/// access), and compound forms are evaluated element-wise or dispatched.
pub fn eval(expr: &Expr, env: &mut Env, scope: usize) -> (r: Result<Value, EvalError>)
    ensures
        (final(env)@, result_view(r)) == eval_expr(MAX_DEPTH as nat, expr@, old(env)@, scope as nat),
{
    eval_in(expr, env, scope, MAX_DEPTH)
}

/// Evaluates an expression in scope `scope` of `env`, nesting at most `fuel`
/// deep.
pub fn eval_in(expr: &Expr, env: &mut Env, scope: usize, fuel: u64) -> (r: Result<Value, EvalError>)
    ensures
        (final(env)@, result_view(r)) == eval_expr(fuel as nat, expr@, old(env)@, scope as nat),
    decreases fuel, 0nat,
{
    if fuel == 0 {
        return Err(EvalError::TooDeep);
    }
    let f = fuel - 1;
    match expr {
        Expr::Int(n) => Ok(Value::Int(*n)),
        Expr::Float(t) => Ok(Value::Float(t.clone())),
        Expr::String(s) => Ok(Value::String(s.clone())),
        Expr::Bool(b) => Ok(Value::Bool(*b)),
        Expr::Symbol(name) => eval_symbol(env, scope, name),
        Expr::Vector(items) => {
            proof {
                assert(exprs_view(items@).subrange(0, items@.len() as int) =~= exprs_view(
                    items@,
                )) by {
                    lemma_exprs_view(items@);
                }
            }
            match eval_from(items, 0, env, scope, f) {
                Ok(vs) => Ok(Value::List(vs)),
                Err(e) => Err(e),
            }
        },
        Expr::Record(fields) => match eval_record_fields(fields, env, scope, f) {
            Ok(fs) => Ok(Value::Record(fs)),
            Err(e) => Err(e),
        },
        Expr::List(items) => eval_list(items, env, scope, f),
        _ => Err(EvalError::NotImplemented(expr.duplicate())),
    }
}

/// Looks a symbol up, or reads a field for `base.field`.
fn eval_symbol(env: &Env, scope: usize, name: &String) -> (r: Result<Value, EvalError>)
    ensures
        result_view(r) == spec_eval_symbol(env@, scope as nat, name@),
{
    let cs = chars_of(name.as_str());
    let mut k: usize = 0;
    while k < cs.len() && cs[k] != '.'
        invariant
            cs@ == name@,
            k <= cs@.len(),
            forall|i: int| 0 <= i < k ==> #[trigger] cs@[i] != '.',
        decreases cs.len() - k,
    {
        k = k + 1;
    }
    if k < cs.len() {
        proof {
            lemma_char_index_first(cs@, '.', k as int);
        }
        let base = string_of(&cs, 0, k);
        let field = string_of(&cs, k + 1, cs.len());
        match env.get(scope, base.as_str()) {
            None => Err(EvalError::UnknownName(base)),
            Some(Value::Record(fs)) => match index_of(&fs, field.as_str()) {
                Some(j) => {
                    proof {
                        lemma_vfields_view(fs@);
                        crate::env::lemma_binding_index_found(vfields_view(fs@), field@);
                    }
                    Ok(fs[j].1.duplicate())
                },
                None => Err(EvalError::NoField(field)),
            },
            Some(_) => Err(EvalError::NotARecord(base)),
        }
    } else {
        proof {
            lemma_char_index_found(cs@, '.');
            if let Some(j) = char_index(cs@, '.') {
                assert(cs@[j as int] != '.');
            }
        }
        match env.get(scope, name.as_str()) {
            Some(v) => Ok(v),
            None => Err(EvalError::UnknownName(name.clone())),
        }
    }
}

/// Evaluates `items[from..]` in order.
#[verifier::loop_isolation(false)]
fn eval_from(items: &Vec<Expr>, from: usize, env: &mut Env, scope: usize, fuel: u64) -> (r: Result<
    Vec<Value>,
    EvalError,
>)
    requires
        from <= items@.len(),
    ensures
        (final(env)@, values_result_view(r)) == eval_seq(
            fuel as nat,
            exprs_view(items@).subrange(from as int, items@.len() as int),
            0,
            old(env)@,
            scope as nat,
            seq![],
        ),
    decreases fuel, 1nat,
{
    let ghost args = exprs_view(items@).subrange(from as int, items@.len() as int);
    let ghost env0 = env@;
    proof {
        lemma_exprs_view(items@);
    }
    let mut out: Vec<Value> = Vec::new();
    let mut k = from;
    while k < items.len()
        invariant
            from <= k <= items@.len(),
            args == exprs_view(items@).subrange(from as int, items@.len() as int),
            args.len() == items@.len() - from,
            forall|i: int| 0 <= i < args.len() ==> #[trigger] args[i] == items@[i + from]@,
            eval_seq(fuel as nat, args, 0, env0, scope as nat, seq![]) == eval_seq(
                fuel as nat,
                args,
                (k - from) as nat,
                env@,
                scope as nat,
                values_view(out@),
            ),
        decreases items.len() - k,
    {
        assert(args[k - from] == items@[k as int]@);
        match eval_in(&items[k], env, scope, fuel) {
            Ok(v) => {
                proof {
                    lemma_values_view_push(out@, v);
                }
                out.push(v);
            },
            Err(e) => {
                return Err(e);
            },
        }
        k = k + 1;
    }
    Ok(out)
}

/// Evaluates the values of record fields in order.
#[verifier::loop_isolation(false)]
fn eval_record_fields(fields: &Vec<(String, Expr)>, env: &mut Env, scope: usize, fuel: u64) -> (r:
    Result<Vec<(String, Value)>, EvalError>)
    ensures
        (final(env)@, fields_result_view(r)) == eval_fields(
            fuel as nat,
            fields_view(fields@),
            0,
            old(env)@,
            scope as nat,
            seq![],
        ),
    decreases fuel, 1nat,
{
    let ghost fv = fields_view(fields@);
    let ghost env0 = env@;
    proof {
        lemma_fields_view(fields@);
    }
    let mut out: Vec<(String, Value)> = Vec::new();
    let mut k: usize = 0;
    while k < fields.len()
        invariant
            k <= fields@.len(),
            fv == fields_view(fields@),
            fv.len() == fields@.len(),
            forall|i: int| 0 <= i < fv.len() ==> #[trigger] fv[i] == (fields@[i].0@, fields@[i].1@),
            eval_fields(fuel as nat, fv, 0, env0, scope as nat, seq![]) == eval_fields(
                fuel as nat,
                fv,
                k as nat,
                env@,
                scope as nat,
                vfields_view(out@),
            ),
        decreases fields.len() - k,
    {
        match eval_in(&fields[k].1, env, scope, fuel) {
            Ok(v) => {
                let key = fields[k].0.clone();
                proof {
                    lemma_vfields_view_push(out@, (key, v));
                }
                out.push((key, v));
            },
            Err(e) => {
                return Err(e);
            },
        }
        k = k + 1;
    }
    Ok(out)
}

/// Evaluates a list by dispatching on its head symbol.
fn eval_list(items: &Vec<Expr>, env: &mut Env, scope: usize, fuel: u64) -> (r: Result<
    Value,
    EvalError,
>)
    ensures
        (final(env)@, result_view(r)) == spec_eval_list(
            fuel as nat,
            exprs_view(items@),
            old(env)@,
            scope as nat,
        ),
    decreases fuel, 4nat,
{
    proof {
        lemma_exprs_view(items@);
    }
    if items.len() == 0 {
        return Err(EvalError::EmptyList);
    }
    match &items[0] {
        Expr::Symbol(name) => {
            let n = name.as_str();
            if str_eq(n, "def") {
                eval_def(items, env, scope, fuel)
            } else if str_eq(n, "let") {
                eval_let(items, env, scope, fuel)
            } else if str_eq(n, "if") {
                eval_if(items, env, scope, fuel)
            } else if str_eq(n, "fn") {
                eval_fn(items, scope)
            } else if str_eq(n, "+") {
                builtin_add(items, env, scope, fuel)
            } else if str_eq(n, "concat") {
                builtin_concat(items, env, scope, fuel)
            } else if str_eq(n, "show") {
                builtin_show(items, env, scope, fuel)
            } else if str_eq(n, "fold") {
                builtin_fold(items, env, scope, fuel)
            } else if str_eq(n, "append") {
                builtin_append(items, env, scope, fuel)
            } else if str_eq(n, "merge") {
                builtin_merge(items, env, scope, fuel)
            } else {
                apply_function(name, items, env, scope, fuel)
            }
        },
        _ => Err(EvalError::HeadNotSymbol),
    }
}

/// `(def name expr)`.
fn eval_def(items: &Vec<Expr>, env: &mut Env, scope: usize, fuel: u64) -> (r: Result<
    Value,
    EvalError,
>)
    requires
        items@.len() >= 1,
    ensures
        (final(env)@, result_view(r)) == spec_eval_def(
            fuel as nat,
            args_of(items@),
            old(env)@,
            scope as nat,
        ),
    decreases fuel, 2nat,
{
    proof {
        lemma_exprs_view(items@);
    }
    if items.len() < 2 {
        return Err(EvalError::DefNeedsName);
    }
    match &items[1] {
        Expr::Symbol(n) => {
            let name = n.clone();
            let last = items.len() - 1;
            assert(args_of(items@).last() == items@[last as int]@);
            match eval_in(&items[last], env, scope, fuel) {
                Ok(v) => {
                    env.define(scope, name, v.duplicate());
                    Ok(v)
                },
                Err(e) => Err(e),
            }
        },
        _ => Err(EvalError::DefNeedsName),
    }
}

/// `(let [name value ...] body)`.
fn eval_let(items: &Vec<Expr>, env: &mut Env, scope: usize, fuel: u64) -> (r: Result<
    Value,
    EvalError,
>)
    requires
        items@.len() >= 1,
    ensures
        (final(env)@, result_view(r)) == spec_eval_let(
            fuel as nat,
            args_of(items@),
            old(env)@,
            scope as nat,
        ),
    decreases fuel, 2nat,
{
    proof {
        lemma_exprs_view(items@);
    }
    if items.len() < 2 {
        return Err(EvalError::LetNeedsBindings);
    }
    match &items[1] {
        Expr::Vector(bs) => {
            if items.len() < 3 {
                return Err(EvalError::LetNeedsBody);
            }
            proof {
                lemma_exprs_view(bs@);
            }
            if bs.len() % 2 != 0 {
                return Err(EvalError::LetOddBindings);
            }
            let child = env.child(scope);
            match let_bindings(bs, env, child, fuel) {
                Ok(()) => eval_in(&items[2], env, child, fuel),
                Err(e) => Err(e),
            }
        },
        _ => Err(EvalError::LetNeedsBindings),
    }
}

/// The bindings of a `let`, evaluated in and bound to scope `child`.
#[verifier::loop_isolation(false)]
fn let_bindings(bs: &Vec<Expr>, env: &mut Env, child: usize, fuel: u64) -> (r: Result<
    (),
    EvalError,
>)
    requires
        bs@.len() % 2 == 0,
    ensures
        (final(env)@, match r {
            Ok(_) => Ok(()),
            Err(e) => Err(e@),
        }) == spec_let_bindings(fuel as nat, exprs_view(bs@), 0, old(env)@, child as nat),
    decreases fuel, 1nat,
{
    let ghost bv = exprs_view(bs@);
    let ghost env0 = env@;
    proof {
        lemma_exprs_view(bs@);
    }
    let mut i: usize = 0;
    while i < bs.len()
        invariant
            bv == exprs_view(bs@),
            bv.len() == bs@.len(),
            bs@.len() % 2 == 0,
            i <= bs@.len(),
            i % 2 == 0,
            forall|j: int| 0 <= j < bv.len() ==> #[trigger] bv[j] == bs@[j]@,
            spec_let_bindings(fuel as nat, bv, 0, env0, child as nat) == spec_let_bindings(
                fuel as nat,
                bv,
                i as nat,
                env@,
                child as nat,
            ),
        decreases bs.len() - i,
    {
        assert(bv[i as int] == bs@[i as int]@);
        let name = match &bs[i] {
            Expr::Symbol(n) => n.clone(),
            _ => {
                return Err(EvalError::LetNameNotSymbol);
            },
        };
        assert(i + 1 < bs.len());
        assert(bv[i + 1] == bs@[i + 1]@);
        match eval_in(&bs[i + 1], env, child, fuel) {
            Ok(v) => {
                env.define(child, name, v);
            },
            Err(e) => {
                return Err(e);
            },
        }
        i = i + 2;
    }
    Ok(())
}

/// `(if cond then else)`.
fn eval_if(items: &Vec<Expr>, env: &mut Env, scope: usize, fuel: u64) -> (r: Result<
    Value,
    EvalError,
>)
    requires
        items@.len() >= 1,
    ensures
        (final(env)@, result_view(r)) == spec_eval_if(
            fuel as nat,
            args_of(items@),
            old(env)@,
            scope as nat,
        ),
    decreases fuel, 2nat,
{
    proof {
        lemma_exprs_view(items@);
    }
    if items.len() != 4 {
        return Err(EvalError::IfArity);
    }
    match eval_in(&items[1], env, scope, fuel) {
        Ok(Value::Bool(b)) => if b {
            eval_in(&items[2], env, scope, fuel)
        } else {
            eval_in(&items[3], env, scope, fuel)
        },
        Ok(_) => Err(EvalError::IfConditionNotBool),
        Err(e) => Err(e),
    }
}

/// `(fn (args) body)`.
#[verifier::loop_isolation(false)]
fn eval_fn(items: &Vec<Expr>, scope: usize) -> (r: Result<Value, EvalError>)
    requires
        items@.len() >= 1,
    ensures
        result_view(r) == spec_eval_fn(args_of(items@), scope as nat),
{
    proof {
        lemma_exprs_view(items@);
    }
    if items.len() < 2 {
        return Err(EvalError::FnNeedsParams);
    }
    match &items[1] {
        Expr::List(ps) => {
            let ghost pv = exprs_view(ps@);
            proof {
                lemma_exprs_view(ps@);
            }
            let mut names: Vec<String> = Vec::new();
            let mut k: usize = 0;
            while k < ps.len()
                invariant
                    pv == exprs_view(ps@),
                    pv.len() == ps@.len(),
                    forall|j: int| 0 <= j < pv.len() ==> #[trigger] pv[j] == ps@[j]@,
                    k <= ps@.len(),
                    param_names(pv.subrange(0, k as int)) == Some(strings_view(names@)),
                decreases ps.len() - k,
            {
                proof {
                    lemma_param_names_step(pv, k as int);
                }
                assert(pv[k as int] == ps@[k as int]@);
                match &ps[k] {
                    Expr::Symbol(n) => {
                        let c = n.clone();
                        assert(strings_view(names@.push(c)) =~= strings_view(names@).push(c@));
                        names.push(c);
                    },
                    _ => {
                        proof {
                            lemma_param_names_none(pv, k + 1);
                        }
                        return Err(EvalError::FnParamNotSymbol);
                    },
                }
                k = k + 1;
            }
            assert(pv.subrange(0, pv.len() as int) =~= pv);
            if items.len() < 3 {
                return Err(EvalError::FnNeedsBody);
            }
            Ok(Value::Closure(Closure { params: names, body: items[2].duplicate(), env: scope }))
        },
        _ => Err(EvalError::FnNeedsParams),
    }
}

/// Calls a closure with already-evaluated argument values.
#[verifier::loop_isolation(false)]
fn call_closure(
    params: &Vec<String>,
    body: &Expr,
    cenv: usize,
    vals: Vec<Value>,
    env: &mut Env,
    fuel: u64,
) -> (r: Result<Value, EvalError>)
    ensures
        (final(env)@, result_view(r)) == spec_call_closure(
            fuel as nat,
            strings_view(params@),
            body@,
            cenv as nat,
            values_view(vals@),
            old(env)@,
        ),
    decreases fuel, 1nat,
{
    let ghost pv = strings_view(params@);
    let ghost vv = values_view(vals@);
    proof {
        lemma_values_view(vals@);
    }
    if vals.len() != params.len() {
        return Err(EvalError::ArityMismatch { expected: params.len(), got: vals.len() });
    }
    let id = env.child(cenv);
    let ghost env1 = env@;
    let mut i: usize = 0;
    while i < params.len()
        invariant
            pv == strings_view(params@),
            vv == values_view(vals@),
            vv.len() == vals@.len(),
            forall|j: int| 0 <= j < vv.len() ==> #[trigger] vv[j] == vals@[j]@,
            params@.len() == vals@.len(),
            i <= params@.len(),
            bind_params(env1, id as nat, pv, vv, 0) == bind_params(env@, id as nat, pv, vv, i as nat),
        decreases params.len() - i,
    {
        let name = params[i].clone();
        let v = vals[i].duplicate();
        assert(pv[i as int] == params@[i as int]@);
        env.define(id, name, v);
        i = i + 1;
    }
    eval_in(body, env, id, fuel)
}

/// Calls a user-defined function by name.
fn apply_function(name: &String, items: &Vec<Expr>, env: &mut Env, scope: usize, fuel: u64) -> (r:
    Result<Value, EvalError>)
    requires
        items@.len() >= 1,
    ensures
        (final(env)@, result_view(r)) == spec_apply_function(
            fuel as nat,
            name@,
            args_of(items@),
            old(env)@,
            scope as nat,
        ),
    decreases fuel, 2nat,
{
    match env.get(scope, name.as_str()) {
        None => Err(EvalError::UnknownFunction(name.clone())),
        Some(Value::Closure(c)) => match eval_from(items, 1, env, scope, fuel) {
            Ok(vals) => call_closure(&c.params, &c.body, c.env, vals, env, fuel),
            Err(e) => Err(e),
        },
        Some(_) => Err(EvalError::NotAFunction(name.clone())),
    }
}

/// `(+ a b ...)` — sums integer arguments.
#[verifier::loop_isolation(false)]
fn builtin_add(items: &Vec<Expr>, env: &mut Env, scope: usize, fuel: u64) -> (r: Result<
    Value,
    EvalError,
>)
    requires
        items@.len() >= 1,
    ensures
        (final(env)@, result_view(r)) == spec_builtin_add(
            fuel as nat,
            args_of(items@),
            0,
            old(env)@,
            scope as nat,
            0,
        ),
    decreases fuel, 1nat,
{
    let ghost args = args_of(items@);
    let ghost env0 = env@;
    proof {
        lemma_exprs_view(items@);
    }
    let mut total: i64 = 0;
    let mut k: usize = 1;
    while k < items.len()
        invariant
            1 <= k <= items@.len(),
            args == args_of(items@),
            args.len() == items@.len() - 1,
            forall|i: int| 0 <= i < args.len() ==> #[trigger] args[i] == items@[i + 1]@,
            spec_builtin_add(fuel as nat, args, 0, env0, scope as nat, 0) == spec_builtin_add(
                fuel as nat,
                args,
                (k - 1) as nat,
                env@,
                scope as nat,
                total,
            ),
        decreases items.len() - k,
    {
        assert(args[k - 1] == items@[k as int]@);
        match eval_in(&items[k], env, scope, fuel) {
            Ok(Value::Int(n)) => match total.checked_add(n) {
                Some(t) => {
                    total = t;
                },
                None => {
                    return Err(EvalError::AddOverflow);
                },
            },
            Ok(other) => {
                return Err(EvalError::AddExpectsNumbers(other));
            },
            Err(e) => {
                return Err(e);
            },
        }
        k = k + 1;
    }
    Ok(Value::Int(total))
}

/// `(concat a b ...)` — concatenates string arguments.
#[verifier::loop_isolation(false)]
fn builtin_concat(items: &Vec<Expr>, env: &mut Env, scope: usize, fuel: u64) -> (r: Result<
    Value,
    EvalError,
>)
    requires
        items@.len() >= 1,
    ensures
        (final(env)@, result_view(r)) == spec_builtin_concat(
            fuel as nat,
            args_of(items@),
            0,
            old(env)@,
            scope as nat,
            seq![],
        ),
    decreases fuel, 1nat,
{
    let ghost args = args_of(items@);
    let ghost env0 = env@;
    proof {
        lemma_exprs_view(items@);
    }
    let mut out = String::new();
    let mut k: usize = 1;
    while k < items.len()
        invariant
            1 <= k <= items@.len(),
            args == args_of(items@),
            args.len() == items@.len() - 1,
            forall|i: int| 0 <= i < args.len() ==> #[trigger] args[i] == items@[i + 1]@,
            spec_builtin_concat(fuel as nat, args, 0, env0, scope as nat, seq![]) == spec_builtin_concat(
                fuel as nat,
                args,
                (k - 1) as nat,
                env@,
                scope as nat,
                out@,
            ),
        decreases items.len() - k,
    {
        assert(args[k - 1] == items@[k as int]@);
        match eval_in(&items[k], env, scope, fuel) {
            Ok(Value::String(s)) => {
                push_string(&mut out, &s);
            },
            Ok(other) => {
                return Err(EvalError::ConcatExpectsStrings(other));
            },
            Err(e) => {
                return Err(e);
            },
        }
        k = k + 1;
    }
    Ok(Value::String(out))
}

/// `(show x)` — turns a value into a string.
fn builtin_show(items: &Vec<Expr>, env: &mut Env, scope: usize, fuel: u64) -> (r: Result<
    Value,
    EvalError,
>)
    requires
        items@.len() >= 1,
    ensures
        (final(env)@, result_view(r)) == spec_builtin_show(
            fuel as nat,
            args_of(items@),
            old(env)@,
            scope as nat,
        ),
    decreases fuel, 2nat,
{
    proof {
        lemma_exprs_view(items@);
    }
    if items.len() != 2 {
        return Err(EvalError::ShowArity);
    }
    match eval_in(&items[1], env, scope, fuel) {
        Ok(v) => match v {
            Value::Int(n) => Ok(Value::String(int_to_string(n))),
            Value::Float(t) => Ok(Value::String(t)),
            Value::String(s) => Ok(Value::String(s)),
            Value::Bool(b) => Ok(
                Value::String(
                    if b {
                        String::from_str("true")
                    } else {
                        String::from_str("false")
                    },
                ),
            ),
            other => Err(EvalError::CantShow(other)),
        },
        Err(e) => Err(e),
    }
}

/// `(append list value)` — returns the list with `value` added at the end.
fn builtin_append(items: &Vec<Expr>, env: &mut Env, scope: usize, fuel: u64) -> (r: Result<
    Value,
    EvalError,
>)
    requires
        items@.len() >= 1,
    ensures
        (final(env)@, result_view(r)) == spec_builtin_append(
            fuel as nat,
            args_of(items@),
            old(env)@,
            scope as nat,
        ),
    decreases fuel, 2nat,
{
    proof {
        lemma_exprs_view(items@);
    }
    if items.len() != 3 {
        return Err(EvalError::AppendArity);
    }
    let list = match eval_in(&items[1], env, scope, fuel) {
        Ok(l) => l,
        Err(e) => {
            return Err(e);
        },
    };
    let value = match eval_in(&items[2], env, scope, fuel) {
        Ok(v) => v,
        Err(e) => {
            return Err(e);
        },
    };
    match list {
        Value::List(mut xs) => {
            proof {
                lemma_values_view_push(xs@, value);
            }
            xs.push(value);
            Ok(Value::List(xs))
        },
        _ => Err(EvalError::AppendExpectsList),
    }
}

/// `(fold list initial (fn (acc x) body))` — reduces a list with a function.
fn builtin_fold(items: &Vec<Expr>, env: &mut Env, scope: usize, fuel: u64) -> (r: Result<
    Value,
    EvalError,
>)
    requires
        items@.len() >= 1,
    ensures
        (final(env)@, result_view(r)) == spec_builtin_fold(
            fuel as nat,
            args_of(items@),
            old(env)@,
            scope as nat,
        ),
    decreases fuel, 3nat,
{
    proof {
        lemma_exprs_view(items@);
    }
    if items.len() != 4 {
        return Err(EvalError::FoldArity);
    }
    let list = match eval_in(&items[1], env, scope, fuel) {
        Ok(l) => l,
        Err(e) => {
            return Err(e);
        },
    };
    let acc = match eval_in(&items[2], env, scope, fuel) {
        Ok(a) => a,
        Err(e) => {
            return Err(e);
        },
    };
    let func = match eval_in(&items[3], env, scope, fuel) {
        Ok(f) => f,
        Err(e) => {
            return Err(e);
        },
    };
    match (list, func) {
        (Value::List(xs), Value::Closure(c)) => fold_items(&c, &xs, acc, env, fuel),
        _ => Err(EvalError::FoldExpectsListAndFunction),
    }
}

/// Applies the closure to the accumulator and each item in turn.
#[verifier::loop_isolation(false)]
fn fold_items(c: &Closure, xs: &Vec<Value>, acc: Value, env: &mut Env, fuel: u64) -> (r: Result<
    Value,
    EvalError,
>)
    ensures
        (final(env)@, result_view(r)) == spec_fold_items(
            fuel as nat,
            strings_view(c.params@),
            c.body@,
            c.env as nat,
            values_view(xs@),
            0,
            acc@,
            old(env)@,
        ),
    decreases fuel, 2nat,
{
    let ghost xv = values_view(xs@);
    let ghost env0 = env@;
    let ghost acc0 = acc@;
    proof {
        lemma_values_view(xs@);
    }
    let mut acc = acc;
    let mut i: usize = 0;
    while i < xs.len()
        invariant
            xv == values_view(xs@),
            xv.len() == xs@.len(),
            forall|j: int| 0 <= j < xv.len() ==> #[trigger] xv[j] == xs@[j]@,
            i <= xs@.len(),
            spec_fold_items(
                fuel as nat,
                strings_view(c.params@),
                c.body@,
                c.env as nat,
                xv,
                0,
                acc0,
                env0,
            ) == spec_fold_items(
                fuel as nat,
                strings_view(c.params@),
                c.body@,
                c.env as nat,
                xv,
                i as nat,
                acc@,
                env@,
            ),
        decreases xs.len() - i,
    {
        let x = xs[i].duplicate();
        let ghost a = acc@;
        let mut args: Vec<Value> = Vec::new();
        proof {
            lemma_values_view_push(args@, acc);
        }
        args.push(acc);
        proof {
            lemma_values_view_push(args@, x);
        }
        args.push(x);
        assert(values_view(args@) =~= seq![a, xv[i as int]]);
        match call_closure(&c.params, &c.body, c.env, args, env, fuel) {
            Ok(next) => {
                acc = next;
            },
            Err(e) => {
                return Err(e);
            },
        }
        i = i + 1;
    }
    Ok(acc)
}

/// Merges the fields `fs` into `merged`, in order.
#[verifier::loop_isolation(false)]
fn merge_into(merged: &mut Vec<(String, Value)>, fs: &Vec<(String, Value)>)
    ensures
        vfields_view(final(merged)@) == merge_fields(vfields_view(old(merged)@), vfields_view(fs@)),
{
    let ghost m0 = vfields_view(merged@);
    let ghost fv = vfields_view(fs@);
    proof {
        lemma_vfields_view(fs@);
    }
    let mut j: usize = 0;
    assert(fv.subrange(0, 0) =~= Seq::<(Seq<char>, SpecValue)>::empty());
    while j < fs.len()
        invariant
            fv == vfields_view(fs@),
            fv.len() == fs@.len(),
            forall|k: int| 0 <= k < fv.len() ==> #[trigger] fv[k] == (fs@[k].0@, fs@[k].1@),
            j <= fs@.len(),
            vfields_view(merged@) == merge_fields(m0, fv.subrange(0, j as int)),
        decreases fs.len() - j,
    {
        let key = fs[j].0.clone();
        let v = fs[j].1.duplicate();
        upsert_binding(merged, key, v);
        assert(fv.subrange(0, j + 1).drop_last() =~= fv.subrange(0, j as int));
        j = j + 1;
    }
    assert(fv.subrange(0, fv.len() as int) =~= fv);
}

/// `(merge a b ...)` — combines records; later records override earlier keys.
#[verifier::loop_isolation(false)]
fn builtin_merge(items: &Vec<Expr>, env: &mut Env, scope: usize, fuel: u64) -> (r: Result<
    Value,
    EvalError,
>)
    requires
        items@.len() >= 1,
    ensures
        (final(env)@, result_view(r)) == spec_builtin_merge(
            fuel as nat,
            args_of(items@),
            0,
            old(env)@,
            scope as nat,
            seq![],
        ),
    decreases fuel, 1nat,
{
    let ghost args = args_of(items@);
    let ghost env0 = env@;
    proof {
        lemma_exprs_view(items@);
    }
    let mut merged: Vec<(String, Value)> = Vec::new();
    assert(vfields_view(merged@) =~= seq![]);
    let mut k: usize = 1;
    while k < items.len()
        invariant
            1 <= k <= items@.len(),
            args == args_of(items@),
            args.len() == items@.len() - 1,
            forall|i: int| 0 <= i < args.len() ==> #[trigger] args[i] == items@[i + 1]@,
            spec_builtin_merge(fuel as nat, args, 0, env0, scope as nat, seq![]) == spec_builtin_merge(
                fuel as nat,
                args,
                (k - 1) as nat,
                env@,
                scope as nat,
                vfields_view(merged@),
            ),
        decreases items.len() - k,
    {
        assert(args[k - 1] == items@[k as int]@);
        match eval_in(&items[k], env, scope, fuel) {
            Ok(Value::Record(fs)) => {
                merge_into(&mut merged, &fs);
            },
            Ok(other) => {
                return Err(EvalError::MergeExpectsRecords(other));
            },
            Err(e) => {
                return Err(e);
            },
        }
        k = k + 1;
    }
    Ok(Value::Record(merged))
}

// ---------------------------------------------------------------------------
// Running a program
// ---------------------------------------------------------------------------

/// Running the top-level forms `es` in order, each in the top-level scope:
/// the first error stops the run; otherwise the value of the last form is the
/// result (`last` when there are no forms left).
pub open spec fn run_forms(es: Seq<SpecExpr>, env: Seq<SpecScope>, last: SpecValue) -> Outcome
    decreases es.len(),
{
    if es.len() == 0 {
        (env, Ok(last))
    } else {
        let (env2, r) = eval_expr(MAX_DEPTH as nat, es[0], env, 0);
        match r {
            Ok(v) => run_forms(es.drop_first(), env2, v),
            Err(e) => (env2, Err(e)),
        }
    }
}

/// Runs a program: evaluates its top-level forms top to bottom in one fresh
/// environment, stopping at the first error. The program's value is the value
/// of its last form, or `false` when it has none.
pub fn run_program(forms: &Vec<Expr>) -> (r: Result<Value, EvalError>)
    ensures
        result_view(r) == run_forms(
            exprs_view(forms@),
            seq![SpecScope { bindings: seq![], parent: None }],
            SpecValue::Bool(false),
        ).1,
{
    let ghost es = exprs_view(forms@);
    proof {
        lemma_exprs_view(forms@);
    }
    let mut env = Env::new();
    let mut result = Value::Bool(false);
    let ghost target = run_forms(es, env@, SpecValue::Bool(false)).1;
    let mut i: usize = 0;
    assert(es.subrange(0, es.len() as int) =~= es);
    while i < forms.len()
        invariant
            es == exprs_view(forms@),
            es.len() == forms@.len(),
            forall|k: int| 0 <= k < es.len() ==> #[trigger] es[k] == forms@[k]@,
            i <= forms@.len(),
            run_forms(es.subrange(i as int, es.len() as int), env@, result@).1 == target,
            target == run_forms(
                es,
                seq![SpecScope { bindings: seq![], parent: None }],
                SpecValue::Bool(false),
            ).1,
        decreases forms.len() - i,
    {
        let ghost rest = es.subrange(i as int, es.len() as int);
        assert(rest[0] == es[i as int]);
        assert(rest.drop_first() =~= es.subrange(i + 1, es.len() as int));
        match eval(&forms[i], &mut env, ROOT_SCOPE) {
            Ok(v) => {
                result = v;
            },
            Err(e) => {
                return Err(e);
            },
        }
        i = i + 1;
    }
    assert(es.subrange(i as int, es.len() as int) =~= Seq::<SpecExpr>::empty());
    assert(run_forms(Seq::<SpecExpr>::empty(), env@, result@).1 == Ok::<SpecValue, SpecEvalError>(result@));
    Ok(result)
}

} // verus!
