//! Runtime values: what expressions evaluate to, and their serialization to
//! JSON, YAML and TOML.

use vstd::prelude::*;
use crate::ast::{Expr, SpecExpr};

verus! {

/// A runtime value — the result of evaluating an expression.
///
/// Mirrors [`Expr`], but the "syntactic" variants are gone: symbols have been
/// looked up, keywords have become record keys, and lists/vectors are merged.
/// A float is carried as its decimal text, which is what gets printed.
#[derive(Debug)]
pub enum Value {
    /// A whole number.
    Int(i64),
    /// A floating-point number, as its decimal text. The lexer produces texts
    /// of the form `-?digits.digits` (such as `007.50`); the serializers write
    /// the text as given, so a program normalizes it (the command-line
    /// program rewrites it as the shortest text of its `f64` value, `7.5`)
    /// before output, where JSON and TOML need a canonical number.
    Float(String),
    /// A string.
    String(String),
    /// A boolean.
    Bool(bool),
    /// A list of values (both `(...)` and `[...]` become this).
    List(Vec<Value>),
    /// A record: key/value pairs.
    Record(Vec<(String, Value)>),
    /// A function value.
    Closure(Closure),
}

/// A function value: its parameters, body, and the scope it captured.
#[derive(Debug)]
pub struct Closure {
    /// The parameter names, e.g. `["a", "b"]` for `(fn (a b) ...)`.
    pub params: Vec<String>,
    /// The function body (an unevaluated expression, evaluated on call).
    pub body: Expr,
    /// The scope the closure was created in — what it "closes over" — as its
    /// index in the [`Env`](crate::env::Env) that holds all scopes.
    pub env: usize,
}

/// The mathematical model of a [`Value`].
pub enum SpecValue {
    Int(i64),
    Float(Seq<char>),
    String(Seq<char>),
    Bool(bool),
    List(Seq<SpecValue>),
    Record(Seq<(Seq<char>, SpecValue)>),
    Closure { params: Seq<Seq<char>>, body: SpecExpr, env: nat },
}

/// The models of a sequence of strings.
pub open spec fn strings_view(s: Seq<String>) -> Seq<Seq<char>> {
    s.map_values(|x: String| x@)
}

/// The model of a value.
pub open spec fn value_view(v: Value) -> SpecValue
    decreases v,
{
    match v {
        Value::Int(n) => SpecValue::Int(n),
        Value::Float(t) => SpecValue::Float(t@),
        Value::String(s) => SpecValue::String(s@),
        Value::Bool(b) => SpecValue::Bool(b),
        Value::List(items) => SpecValue::List(values_view(items@)),
        Value::Record(fields) => SpecValue::Record(vfields_view(fields@)),
        Value::Closure(c) => SpecValue::Closure {
            params: strings_view(c.params@),
            body: c.body@,
            env: c.env as nat,
        },
    }
}

/// The models of a sequence of values.
pub open spec fn values_view(s: Seq<Value>) -> Seq<SpecValue>
    decreases s,
{
    if s.len() == 0 {
        seq![]
    } else {
        values_view(s.subrange(0, s.len() - 1)).push(value_view(s[s.len() - 1]))
    }
}

/// The models of the fields of a record value.
pub open spec fn vfields_view(s: Seq<(String, Value)>) -> Seq<(Seq<char>, SpecValue)>
    decreases s,
{
    if s.len() == 0 {
        seq![]
    } else {
        vfields_view(s.subrange(0, s.len() - 1)).push(
            (s[s.len() - 1].0@, value_view(s[s.len() - 1].1)),
        )
    }
}

impl View for Value {
    type V = SpecValue;

    open spec fn view(&self) -> SpecValue {
        value_view(*self)
    }
}

pub proof fn lemma_values_view(s: Seq<Value>)
    ensures
        values_view(s).len() == s.len(),
        forall|i: int| 0 <= i < s.len() ==> #[trigger] values_view(s)[i] == value_view(s[i]),
    decreases s.len(),
{
    if s.len() > 0 {
        lemma_values_view(s.subrange(0, s.len() - 1));
    }
}

pub proof fn lemma_vfields_view(s: Seq<(String, Value)>)
    ensures
        vfields_view(s).len() == s.len(),
        forall|i: int|
            0 <= i < s.len() ==> #[trigger] vfields_view(s)[i] == (s[i].0@, value_view(s[i].1)),
    decreases s.len(),
{
    if s.len() > 0 {
        lemma_vfields_view(s.subrange(0, s.len() - 1));
    }
}

pub proof fn lemma_values_view_push(s: Seq<Value>, v: Value)
    ensures
        values_view(s.push(v)) == values_view(s).push(value_view(v)),
{
    assert(s.push(v).subrange(0, s.len() as int) =~= s);
}

pub proof fn lemma_vfields_view_push(s: Seq<(String, Value)>, f: (String, Value))
    ensures
        vfields_view(s.push(f)) == vfields_view(s).push((f.0@, value_view(f.1))),
{
    assert(s.push(f).subrange(0, s.len() as int) =~= s);
}

/// Copies of a sequence of strings.
pub fn duplicate_strings(s: &Vec<String>) -> (r: Vec<String>)
    ensures
        strings_view(r@) == strings_view(s@),
{
    let mut out: Vec<String> = Vec::new();
    let mut i: usize = 0;
    while i < s.len()
        invariant
            i <= s@.len(),
            out@.len() == i,
            forall|k: int| 0 <= k < i ==> #[trigger] out@[k]@ == s@[k]@,
        decreases s.len() - i,
    {
        let c = s[i].clone();
        out.push(c);
        i = i + 1;
    }
    assert(strings_view(out@) =~= strings_view(s@));
    out
}

impl Value {
    /// A copy of this value.
    pub fn duplicate(&self) -> (r: Value)
        ensures
            r@ == self@,
        decreases self,
    {
        match self {
            Value::Int(n) => Value::Int(*n),
            Value::Float(t) => Value::Float(t.clone()),
            Value::String(s) => Value::String(s.clone()),
            Value::Bool(b) => Value::Bool(*b),
            Value::List(items) => Value::List(Self::duplicate_all(items)),
            Value::Record(fields) => Value::Record(Self::duplicate_fields(fields)),
            Value::Closure(c) => Value::Closure(
                Closure {
                    params: duplicate_strings(&c.params),
                    body: c.body.duplicate(),
                    env: c.env,
                },
            ),
        }
    }

    /// Copies of a sequence of values.
    pub fn duplicate_all(items: &Vec<Value>) -> (r: Vec<Value>)
        ensures
            values_view(r@) == values_view(items@),
        decreases items,
    {
        let mut out: Vec<Value> = Vec::new();
        let mut i: usize = 0;
        while i < items.len()
            invariant
                i <= items@.len(),
                values_view(out@) == values_view(items@.subrange(0, i as int)),
            decreases items.len() - i,
        {
            let v = items[i].duplicate();
            proof {
                lemma_values_view_push(out@, v);
                lemma_values_view_push(items@.subrange(0, i as int), items@[i as int]);
                assert(items@.subrange(0, i as int).push(items@[i as int]) =~= items@.subrange(
                    0,
                    i + 1,
                ));
            }
            out.push(v);
            i = i + 1;
        }
        assert(items@.subrange(0, items@.len() as int) =~= items@);
        out
    }

    /// Copies of the fields of a record.
    pub fn duplicate_fields(fields: &Vec<(String, Value)>) -> (r: Vec<(String, Value)>)
        ensures
            vfields_view(r@) == vfields_view(fields@),
        decreases fields,
    {
        let mut out: Vec<(String, Value)> = Vec::new();
        let mut i: usize = 0;
        while i < fields.len()
            invariant
                i <= fields@.len(),
                vfields_view(out@) == vfields_view(fields@.subrange(0, i as int)),
            decreases fields.len() - i,
        {
            let k = fields[i].0.clone();
            proof {
                assert(decreases_to!(fields => fields@[i as int].1));
            }
            let v = fields[i].1.duplicate();
            proof {
                lemma_vfields_view_push(out@, (k, v));
                lemma_vfields_view_push(fields@.subrange(0, i as int), fields@[i as int]);
                assert(fields@.subrange(0, i as int).push(fields@[i as int]) =~= fields@.subrange(
                    0,
                    i + 1,
                ));
            }
            out.push((k, v));
            i = i + 1;
        }
        assert(fields@.subrange(0, fields@.len() as int) =~= fields@);
        out
    }
}

} // verus!
