//! The expression tree produced by the parser.

use vstd::prelude::*;

verus! {

/// A parsed expression.
///
/// A float literal is carried as its decimal text, as in the tokens.
#[derive(Debug, PartialEq)]
pub enum Expr {
    Int(i64),
    Float(String),
    String(String),
    Bool(bool),
    Symbol(String),
    Keyword(String),
    /// `(a b c)`
    List(Vec<Expr>),
    /// `{:key val ...}`
    Record(Vec<(String, Expr)>),
    /// `[a b c]`
    Vector(Vec<Expr>),
    /// `'x`
    Quote(Box<Expr>),
    /// `` `x ``
    Quasiquote(Box<Expr>),
    /// `,x`
    Unquote(Box<Expr>),
    /// `,@x`
    UnquoteSplice(Box<Expr>),
}

/// The mathematical model of an [`Expr`].
pub enum SpecExpr {
    Int(i64),
    Float(Seq<char>),
    String(Seq<char>),
    Bool(bool),
    Symbol(Seq<char>),
    Keyword(Seq<char>),
    List(Seq<SpecExpr>),
    Record(Seq<(Seq<char>, SpecExpr)>),
    Vector(Seq<SpecExpr>),
    Quote(Box<SpecExpr>),
    Quasiquote(Box<SpecExpr>),
    Unquote(Box<SpecExpr>),
    UnquoteSplice(Box<SpecExpr>),
}

/// The model of an expression.
pub open spec fn expr_view(e: Expr) -> SpecExpr
    decreases e,
{
    match e {
        Expr::Int(n) => SpecExpr::Int(n),
        Expr::Float(t) => SpecExpr::Float(t@),
        Expr::String(s) => SpecExpr::String(s@),
        Expr::Bool(b) => SpecExpr::Bool(b),
        Expr::Symbol(s) => SpecExpr::Symbol(s@),
        Expr::Keyword(k) => SpecExpr::Keyword(k@),
        Expr::List(items) => SpecExpr::List(exprs_view(items@)),
        Expr::Record(fields) => SpecExpr::Record(fields_view(fields@)),
        Expr::Vector(items) => SpecExpr::Vector(exprs_view(items@)),
        Expr::Quote(b) => SpecExpr::Quote(Box::new(expr_view(*b))),
        Expr::Quasiquote(b) => SpecExpr::Quasiquote(Box::new(expr_view(*b))),
        Expr::Unquote(b) => SpecExpr::Unquote(Box::new(expr_view(*b))),
        Expr::UnquoteSplice(b) => SpecExpr::UnquoteSplice(Box::new(expr_view(*b))),
    }
}

/// The models of a sequence of expressions.
pub open spec fn exprs_view(s: Seq<Expr>) -> Seq<SpecExpr>
    decreases s,
{
    if s.len() == 0 {
        seq![]
    } else {
        exprs_view(s.subrange(0, s.len() - 1)).push(expr_view(s[s.len() - 1]))
    }
}

/// The models of the fields of a record.
pub open spec fn fields_view(s: Seq<(String, Expr)>) -> Seq<(Seq<char>, SpecExpr)>
    decreases s,
{
    if s.len() == 0 {
        seq![]
    } else {
        fields_view(s.subrange(0, s.len() - 1)).push(
            (s[s.len() - 1].0@, expr_view(s[s.len() - 1].1)),
        )
    }
}

impl View for Expr {
    type V = SpecExpr;

    open spec fn view(&self) -> SpecExpr {
        expr_view(*self)
    }
}

pub proof fn lemma_exprs_view(s: Seq<Expr>)
    ensures
        exprs_view(s).len() == s.len(),
        forall|i: int| 0 <= i < s.len() ==> #[trigger] exprs_view(s)[i] == expr_view(s[i]),
    decreases s.len(),
{
    if s.len() > 0 {
        lemma_exprs_view(s.subrange(0, s.len() - 1));
    }
}

pub proof fn lemma_fields_view(s: Seq<(String, Expr)>)
    ensures
        fields_view(s).len() == s.len(),
        forall|i: int|
            0 <= i < s.len() ==> #[trigger] fields_view(s)[i] == (s[i].0@, expr_view(s[i].1)),
    decreases s.len(),
{
    if s.len() > 0 {
        lemma_fields_view(s.subrange(0, s.len() - 1));
    }
}

/// The models of `s.push(e)` extend those of `s`.
pub proof fn lemma_exprs_view_push(s: Seq<Expr>, e: Expr)
    ensures
        exprs_view(s.push(e)) == exprs_view(s).push(expr_view(e)),
{
    assert(s.push(e).subrange(0, s.len() as int) =~= s);
}

pub proof fn lemma_fields_view_push(s: Seq<(String, Expr)>, f: (String, Expr))
    ensures
        fields_view(s.push(f)) == fields_view(s).push((f.0@, expr_view(f.1))),
{
    assert(s.push(f).subrange(0, s.len() as int) =~= s);
}

impl Expr {
    /// A copy of this expression.
    pub fn duplicate(&self) -> (r: Expr)
        ensures
            r@ == self@,
        decreases self,
    {
        match self {
            Expr::Int(n) => Expr::Int(*n),
            Expr::Float(t) => Expr::Float(t.clone()),
            Expr::String(s) => Expr::String(s.clone()),
            Expr::Bool(b) => Expr::Bool(*b),
            Expr::Symbol(s) => Expr::Symbol(s.clone()),
            Expr::Keyword(k) => Expr::Keyword(k.clone()),
            Expr::List(items) => Expr::List(Self::duplicate_all(items)),
            Expr::Vector(items) => Expr::Vector(Self::duplicate_all(items)),
            Expr::Record(fields) => Expr::Record(Self::duplicate_fields(fields)),
            Expr::Quote(b) => Expr::Quote(Box::new(b.duplicate())),
            Expr::Quasiquote(b) => Expr::Quasiquote(Box::new(b.duplicate())),
            Expr::Unquote(b) => Expr::Unquote(Box::new(b.duplicate())),
            Expr::UnquoteSplice(b) => Expr::UnquoteSplice(Box::new(b.duplicate())),
        }
    }

    /// Copies of the fields of a record.
    pub fn duplicate_fields(fields: &Vec<(String, Expr)>) -> (r: Vec<(String, Expr)>)
        ensures
            fields_view(r@) == fields_view(fields@),
        decreases fields,
    {
        let mut out: Vec<(String, Expr)> = Vec::new();
        let mut i: usize = 0;
        while i < fields.len()
            invariant
                i <= fields@.len(),
                fields_view(out@) == fields_view(fields@.subrange(0, i as int)),
            decreases fields.len() - i,
        {
            let k = fields[i].0.clone();
            proof {
                assert(decreases_to!(fields => fields@[i as int].1));
            }
            let v = fields[i].1.duplicate();
            proof {
                lemma_fields_view_push(out@, (k, v));
                lemma_fields_view_push(fields@.subrange(0, i as int), fields@[i as int]);
                assert(fields@.subrange(0, i as int).push(fields@[i as int]) =~= fields@.subrange(
                    0,
                    i + 1,
                ));
            }
            out.push((k, v));
            i = i + 1;
        }
        assert(fields@.subrange(0, fields@.len() as int) =~= fields@);
        out
    }

    /// Copies of a sequence of expressions.
    pub fn duplicate_all(items: &Vec<Expr>) -> (r: Vec<Expr>)
        ensures
            exprs_view(r@) == exprs_view(items@),
        decreases items,
    {
        let mut out: Vec<Expr> = Vec::new();
        let mut i: usize = 0;
        while i < items.len()
            invariant
                i <= items@.len(),
                exprs_view(out@) == exprs_view(items@.subrange(0, i as int)),
            decreases items.len() - i,
        {
            let e = items[i].duplicate();
            proof {
                lemma_exprs_view_push(out@, e);
                lemma_exprs_view_push(items@.subrange(0, i as int), items@[i as int]);
                assert(items@.subrange(0, i as int).push(items@[i as int]) =~= items@.subrange(
                    0,
                    i + 1,
                ));
            }
            out.push(e);
            i = i + 1;
        }
        assert(items@.subrange(0, items@.len() as int) =~= items@);
        out
    }
}

} // verus!
