//! The parser: turns a token sequence into expression trees (recursive descent).
//!
//! [`parse_spec`] is what a token sequence parses to: the top-level forms, or
//! the message of the first syntax error.

use vstd::prelude::*;
use crate::ast::{Expr, SpecExpr, exprs_view, fields_view, lemma_exprs_view_push, lemma_fields_view_push};
use crate::token::{SpecToken, Token, tokens_view};

verus! {

pub open spec fn end_of_input_msg() -> Seq<char> {
    "unexpected end of input"@
}

pub open spec fn unterminated_list_msg() -> Seq<char> {
    "unterminated list (missing ')')"@
}

pub open spec fn unterminated_vector_msg() -> Seq<char> {
    "unterminated vector (missing ']')"@
}

pub open spec fn unterminated_record_msg() -> Seq<char> {
    "unterminated record (missing '}')"@
}

pub open spec fn expected_keyword_msg() -> Seq<char> {
    "expected a keyword in record"@
}

/// The message for a token that cannot start a form (`:`, `)`, `}` or `]`).
pub open spec fn unexpected_token_msg(t: SpecToken) -> Seq<char> {
    match t {
        SpecToken::Colon => "unexpected token: Colon"@,
        SpecToken::RParen => "unexpected token: RParen"@,
        SpecToken::RBrace => "unexpected token: RBrace"@,
        _ => "unexpected token: RBracket"@,
    }
}

/// The two kinds of bracketed sequences: `( ... )` lists and `[ ... ]` vectors.
pub open spec fn closer(vector: bool) -> SpecToken {
    if vector {
        SpecToken::RBracket
    } else {
        SpecToken::RParen
    }
}

pub open spec fn unterminated_msg(vector: bool) -> Seq<char> {
    if vector {
        unterminated_vector_msg()
    } else {
        unterminated_list_msg()
    }
}

/// The form starting at token `i`, and the position after it.
pub open spec fn parse_form_at(ts: Seq<SpecToken>, i: nat) -> Result<(SpecExpr, nat), Seq<char>>
    decreases ts.len() - i, 0nat,
{
    if i >= ts.len() {
        Err(end_of_input_msg())
    } else {
        match ts[i as int] {
            SpecToken::Int(n) => Ok((SpecExpr::Int(n), i + 1)),
            SpecToken::Float(t) => Ok((SpecExpr::Float(t), i + 1)),
            SpecToken::String(s) => Ok((SpecExpr::String(s), i + 1)),
            SpecToken::Bool(b) => Ok((SpecExpr::Bool(b), i + 1)),
            SpecToken::Symbol(s) => Ok((SpecExpr::Symbol(s), i + 1)),
            SpecToken::Keyword(k) => Ok((SpecExpr::Keyword(k), i + 1)),
            SpecToken::LParen => match parse_items_at(ts, i + 1, false, seq![]) {
                Ok((items, k)) => Ok((SpecExpr::List(items), k)),
                Err(e) => Err(e),
            },
            SpecToken::LBracket => match parse_items_at(ts, i + 1, true, seq![]) {
                Ok((items, k)) => Ok((SpecExpr::Vector(items), k)),
                Err(e) => Err(e),
            },
            SpecToken::LBrace => match parse_fields_at(ts, i + 1, seq![]) {
                Ok((fields, k)) => Ok((SpecExpr::Record(fields), k)),
                Err(e) => Err(e),
            },
            SpecToken::Quote => match parse_form_at(ts, i + 1) {
                Ok((e, k)) => Ok((SpecExpr::Quote(Box::new(e)), k)),
                Err(e) => Err(e),
            },
            SpecToken::Quasiquote => match parse_form_at(ts, i + 1) {
                Ok((e, k)) => Ok((SpecExpr::Quasiquote(Box::new(e)), k)),
                Err(e) => Err(e),
            },
            SpecToken::Unquote => match parse_form_at(ts, i + 1) {
                Ok((e, k)) => Ok((SpecExpr::Unquote(Box::new(e)), k)),
                Err(e) => Err(e),
            },
            SpecToken::UnquoteSplice => match parse_form_at(ts, i + 1) {
                Ok((e, k)) => Ok((SpecExpr::UnquoteSplice(Box::new(e)), k)),
                Err(e) => Err(e),
            },
            t => Err(unexpected_token_msg(t)),
        }
    }
}

/// The items of a list (or, when `vector`, a vector) from token `i` up to and
/// including its closing bracket, after the items `acc` already read.
pub open spec fn parse_items_at(ts: Seq<SpecToken>, i: nat, vector: bool, acc: Seq<SpecExpr>) -> Result<
    (Seq<SpecExpr>, nat),
    Seq<char>,
>
    decreases ts.len() - i, 1nat,
{
    if i >= ts.len() {
        Err(unterminated_msg(vector))
    } else if ts[i as int] == closer(vector) {
        Ok((acc, i + 1))
    } else {
        match parse_form_at(ts, i) {
            Err(e) => Err(e),
            Ok((e, k)) => if i < k <= ts.len() {
                parse_items_at(ts, k, vector, acc.push(e))
            } else {
                Err(end_of_input_msg())
            },
        }
    }
}

/// The fields of a record from token `i` up to and including its `}`, after
/// the fields `acc` already read.
pub open spec fn parse_fields_at(ts: Seq<SpecToken>, i: nat, acc: Seq<(Seq<char>, SpecExpr)>) -> Result<
    (Seq<(Seq<char>, SpecExpr)>, nat),
    Seq<char>,
>
    decreases ts.len() - i, 1nat,
{
    if i >= ts.len() {
        Err(unterminated_record_msg())
    } else {
        match ts[i as int] {
            SpecToken::RBrace => Ok((acc, i + 1)),
            SpecToken::Keyword(name) => match parse_form_at(ts, i + 1) {
                Err(e) => Err(e),
                Ok((v, k)) => if i < k <= ts.len() {
                    parse_fields_at(ts, k, acc.push((name, v)))
                } else {
                    Err(end_of_input_msg())
                },
            },
            _ => Err(expected_keyword_msg()),
        }
    }
}

/// The forms from token `i` to the end, after the forms `acc` already read.
pub open spec fn parse_all_at(ts: Seq<SpecToken>, i: nat, acc: Seq<SpecExpr>) -> Result<
    Seq<SpecExpr>,
    Seq<char>,
>
    decreases ts.len() - i,
{
    if i >= ts.len() {
        Ok(acc)
    } else {
        match parse_form_at(ts, i) {
            Err(e) => Err(e),
            Ok((e, k)) => if i < k <= ts.len() {
                parse_all_at(ts, k, acc.push(e))
            } else {
                Err(end_of_input_msg())
            },
        }
    }
}

/// What a token sequence parses to: its top-level forms, or the first error.
pub open spec fn parse_spec(ts: Seq<SpecToken>) -> Result<Seq<SpecExpr>, Seq<char>> {
    parse_all_at(ts, 0, seq![])
}

/// Every form that parses consumes at least one token and stays in bounds.
pub proof fn lemma_parse_form_advances(ts: Seq<SpecToken>, i: nat)
    ensures
        parse_form_at(ts, i) matches Ok((_, k)) ==> i < k <= ts.len(),
    decreases ts.len() - i, 0nat,
{
    if i < ts.len() {
        match ts[i as int] {
            SpecToken::LParen => lemma_parse_items_advances(ts, i + 1, false, seq![]),
            SpecToken::LBracket => lemma_parse_items_advances(ts, i + 1, true, seq![]),
            SpecToken::LBrace => lemma_parse_fields_advances(ts, i + 1, seq![]),
            SpecToken::Quote => lemma_parse_form_advances(ts, i + 1),
            SpecToken::Quasiquote => lemma_parse_form_advances(ts, i + 1),
            SpecToken::Unquote => lemma_parse_form_advances(ts, i + 1),
            SpecToken::UnquoteSplice => lemma_parse_form_advances(ts, i + 1),
            _ => {},
        }
    }
}

pub proof fn lemma_parse_items_advances(
    ts: Seq<SpecToken>,
    i: nat,
    vector: bool,
    acc: Seq<SpecExpr>,
)
    ensures
        parse_items_at(ts, i, vector, acc) matches Ok((_, k)) ==> i < k <= ts.len(),
    decreases ts.len() - i, 1nat,
{
    if i < ts.len() && ts[i as int] != closer(vector) {
        lemma_parse_form_advances(ts, i);
        if let Ok((e, k)) = parse_form_at(ts, i) {
            if i < k <= ts.len() {
                lemma_parse_items_advances(ts, k, vector, acc.push(e));
            }
        }
    }
}

pub proof fn lemma_parse_fields_advances(
    ts: Seq<SpecToken>,
    i: nat,
    acc: Seq<(Seq<char>, SpecExpr)>,
)
    ensures
        parse_fields_at(ts, i, acc) matches Ok((_, k)) ==> i < k <= ts.len(),
    decreases ts.len() - i, 1nat,
{
    if i < ts.len() {
        if let SpecToken::Keyword(name) = ts[i as int] {
            lemma_parse_form_advances(ts, i + 1);
            if let Ok((v, k)) = parse_form_at(ts, i + 1) {
                if i < k <= ts.len() {
                    lemma_parse_fields_advances(ts, k, acc.push((name, v)));
                }
            }
        }
    }
}

// ---------------------------------------------------------------------------
// Printing forms back to tokens
// ---------------------------------------------------------------------------

/// The tokens that spell a form.
pub open spec fn form_tokens(e: SpecExpr) -> Seq<SpecToken>
    decreases e,
{
    match e {
        SpecExpr::Int(n) => seq![SpecToken::Int(n)],
        SpecExpr::Float(t) => seq![SpecToken::Float(t)],
        SpecExpr::String(s) => seq![SpecToken::String(s)],
        SpecExpr::Bool(b) => seq![SpecToken::Bool(b)],
        SpecExpr::Symbol(s) => seq![SpecToken::Symbol(s)],
        SpecExpr::Keyword(k) => seq![SpecToken::Keyword(k)],
        SpecExpr::List(items) => seq![SpecToken::LParen] + forms_tokens(items) + seq![
            SpecToken::RParen,
        ],
        SpecExpr::Vector(items) => seq![SpecToken::LBracket] + forms_tokens(items) + seq![
            SpecToken::RBracket,
        ],
        SpecExpr::Record(fields) => seq![SpecToken::LBrace] + fields_tokens(fields) + seq![
            SpecToken::RBrace,
        ],
        SpecExpr::Quote(b) => seq![SpecToken::Quote] + form_tokens(*b),
        SpecExpr::Quasiquote(b) => seq![SpecToken::Quasiquote] + form_tokens(*b),
        SpecExpr::Unquote(b) => seq![SpecToken::Unquote] + form_tokens(*b),
        SpecExpr::UnquoteSplice(b) => seq![SpecToken::UnquoteSplice] + form_tokens(*b),
    }
}

/// The tokens that spell a sequence of forms, one after the other.
pub open spec fn forms_tokens(es: Seq<SpecExpr>) -> Seq<SpecToken>
    decreases es,
{
    if es.len() == 0 {
        seq![]
    } else {
        form_tokens(es[0]) + forms_tokens(es.subrange(1, es.len() as int))
    }
}

/// The tokens that spell the fields of a record: each key as a keyword, then
/// its value.
pub open spec fn fields_tokens(fs: Seq<(Seq<char>, SpecExpr)>) -> Seq<SpecToken>
    decreases fs,
{
    if fs.len() == 0 {
        seq![]
    } else {
        seq![SpecToken::Keyword(fs[0].0)] + form_tokens(fs[0].1) + fields_tokens(
            fs.subrange(1, fs.len() as int),
        )
    }
}

/// A form is spelled by at least one token, and its first token can start a
/// form.
proof fn lemma_form_tokens_start(e: SpecExpr)
    ensures
        form_tokens(e).len() >= 1,
        !(form_tokens(e)[0] is RParen || form_tokens(e)[0] is RBracket || form_tokens(e)[0] is RBrace
            || form_tokens(e)[0] is Colon),
{
}

/// A part of the tokens found at position `i` is found at its own position.
proof fn lemma_tokens_part(ts: Seq<SpecToken>, i: int, whole: Seq<SpecToken>, off: int, part: Seq<SpecToken>)
    requires
        0 <= i,
        i + whole.len() <= ts.len(),
        ts.subrange(i, i + whole.len()) == whole,
        0 <= off,
        off + part.len() <= whole.len(),
        whole.subrange(off, off + part.len()) == part,
    ensures
        ts.subrange(i + off, i + off + part.len()) == part,
{
    assert forall|j: int| 0 <= j < part.len() implies #[trigger] ts.subrange(
        i + off,
        i + off + part.len(),
    )[j] == part[j] by {
        assert(ts[i + off + j] == ts.subrange(i, i + whole.len())[off + j]);
        assert(whole[off + j] == whole.subrange(off, off + part.len())[j]);
    }
    assert(ts.subrange(i + off, i + off + part.len()) =~= part);
}

/// The token found at offset `off` of the tokens at position `i`.
proof fn lemma_tokens_at(ts: Seq<SpecToken>, i: int, whole: Seq<SpecToken>, off: int)
    requires
        0 <= i,
        i + whole.len() <= ts.len(),
        ts.subrange(i, i + whole.len()) == whole,
        0 <= off < whole.len(),
    ensures
        ts[i + off] == whole[off],
{
    assert(ts[i + off] == ts.subrange(i, i + whole.len())[off]);
}

/// The tokens of a form, read at their position, parse back to the form.
proof fn lemma_parse_form_tokens(e: SpecExpr, ts: Seq<SpecToken>, i: int)
    requires
        0 <= i,
        i + form_tokens(e).len() <= ts.len(),
        ts.subrange(i, i + form_tokens(e).len()) == form_tokens(e),
    ensures
        parse_form_at(ts, i as nat) == Ok::<(SpecExpr, nat), Seq<char>>(
            (e, (i + form_tokens(e).len()) as nat),
        ),
    decreases e, 1nat,
{
    let w = form_tokens(e);
    lemma_form_tokens_start(e);
    lemma_tokens_at(ts, i, w, 0);
    match e {
        SpecExpr::List(items) => {
            let ft = forms_tokens(items);
            assert(w.subrange(1, 1 + ft.len() as int) =~= ft);
            lemma_tokens_part(ts, i, w, 1, ft);
            lemma_tokens_at(ts, i, w, 1 + ft.len() as int);
            lemma_parse_forms_tokens(items, ts, i + 1, false, seq![]);
            assert(seq![] + items =~= items);
        },
        SpecExpr::Vector(items) => {
            let ft = forms_tokens(items);
            assert(w.subrange(1, 1 + ft.len() as int) =~= ft);
            lemma_tokens_part(ts, i, w, 1, ft);
            lemma_tokens_at(ts, i, w, 1 + ft.len() as int);
            lemma_parse_forms_tokens(items, ts, i + 1, true, seq![]);
            assert(seq![] + items =~= items);
        },
        SpecExpr::Record(fields) => {
            let ft = fields_tokens(fields);
            assert(w.subrange(1, 1 + ft.len() as int) =~= ft);
            lemma_tokens_part(ts, i, w, 1, ft);
            lemma_tokens_at(ts, i, w, 1 + ft.len() as int);
            lemma_parse_fields_tokens(fields, ts, i + 1, seq![]);
            assert(seq![] + fields =~= fields);
        },
        SpecExpr::Quote(b) => {
            assert(w.subrange(1, 1 + form_tokens(*b).len() as int) =~= form_tokens(*b));
            lemma_tokens_part(ts, i, w, 1, form_tokens(*b));
            lemma_parse_form_tokens(*b, ts, i + 1);
        },
        SpecExpr::Quasiquote(b) => {
            assert(w.subrange(1, 1 + form_tokens(*b).len() as int) =~= form_tokens(*b));
            lemma_tokens_part(ts, i, w, 1, form_tokens(*b));
            lemma_parse_form_tokens(*b, ts, i + 1);
        },
        SpecExpr::Unquote(b) => {
            assert(w.subrange(1, 1 + form_tokens(*b).len() as int) =~= form_tokens(*b));
            lemma_tokens_part(ts, i, w, 1, form_tokens(*b));
            lemma_parse_form_tokens(*b, ts, i + 1);
        },
        SpecExpr::UnquoteSplice(b) => {
            assert(w.subrange(1, 1 + form_tokens(*b).len() as int) =~= form_tokens(*b));
            lemma_tokens_part(ts, i, w, 1, form_tokens(*b));
            lemma_parse_form_tokens(*b, ts, i + 1);
        },
        _ => {},
    }
}

/// The tokens of a sequence of forms followed by the closing bracket parse
/// back to the forms.
proof fn lemma_parse_forms_tokens(
    es: Seq<SpecExpr>,
    ts: Seq<SpecToken>,
    i: int,
    vector: bool,
    acc: Seq<SpecExpr>,
)
    requires
        0 <= i,
        i + forms_tokens(es).len() < ts.len(),
        ts.subrange(i, i + forms_tokens(es).len()) == forms_tokens(es),
        ts[i + forms_tokens(es).len()] == closer(vector),
    ensures
        parse_items_at(ts, i as nat, vector, acc) == Ok::<(Seq<SpecExpr>, nat), Seq<char>>(
            (acc + es, (i + forms_tokens(es).len() + 1) as nat),
        ),
    decreases es, 0nat,
{
    if es.len() == 0 {
        assert(acc + es =~= acc);
    } else {
        let e = es[0];
        let rest = es.subrange(1, es.len() as int);
        let w = forms_tokens(es);
        let fe = form_tokens(e);
        let fr = forms_tokens(rest);
        lemma_form_tokens_start(e);
        assert(w == fe + fr);
        assert(w.subrange(0, fe.len() as int) =~= fe);
        assert(w.subrange(fe.len() as int, fe.len() as int + fr.len()) =~= fr);
        lemma_tokens_at(ts, i, w, 0);
        lemma_tokens_part(ts, i, w, 0, fe);
        lemma_tokens_part(ts, i, w, fe.len() as int, fr);
        lemma_parse_form_tokens(e, ts, i);
        lemma_parse_forms_tokens(rest, ts, i + fe.len(), vector, acc.push(e));
        assert(acc.push(e) + rest =~= acc + es);
    }
}

/// The tokens of record fields followed by `}` parse back to the fields.
proof fn lemma_parse_fields_tokens(
    fs: Seq<(Seq<char>, SpecExpr)>,
    ts: Seq<SpecToken>,
    i: int,
    acc: Seq<(Seq<char>, SpecExpr)>,
)
    requires
        0 <= i,
        i + fields_tokens(fs).len() < ts.len(),
        ts.subrange(i, i + fields_tokens(fs).len()) == fields_tokens(fs),
        ts[i + fields_tokens(fs).len()] == SpecToken::RBrace,
    ensures
        parse_fields_at(ts, i as nat, acc) == Ok::<(Seq<(Seq<char>, SpecExpr)>, nat), Seq<char>>(
            (acc + fs, (i + fields_tokens(fs).len() + 1) as nat),
        ),
    decreases fs, 0nat,
{
    if fs.len() == 0 {
        assert(acc + fs =~= acc);
    } else {
        let f = fs[0];
        let rest = fs.subrange(1, fs.len() as int);
        let w = fields_tokens(fs);
        let fe = form_tokens(f.1);
        let fr = fields_tokens(rest);
        assert(w == seq![SpecToken::Keyword(f.0)] + fe + fr);
        assert(w.subrange(1, 1 + fe.len() as int) =~= fe);
        assert(w.subrange(1 + fe.len() as int, 1 + fe.len() as int + fr.len()) =~= fr);
        lemma_tokens_at(ts, i, w, 0);
        lemma_tokens_part(ts, i, w, 1, fe);
        lemma_tokens_part(ts, i, w, 1 + fe.len() as int, fr);
        lemma_parse_form_tokens(f.1, ts, i + 1);
        lemma_parse_fields_tokens(rest, ts, i + 1 + fe.len() as int, acc.push((f.0, f.1)));
        assert(acc.push((f.0, f.1)) + rest =~= acc + fs);
    }
}

proof fn lemma_parse_all_tokens(es: Seq<SpecExpr>, ts: Seq<SpecToken>, i: int, acc: Seq<SpecExpr>)
    requires
        0 <= i,
        i + forms_tokens(es).len() == ts.len(),
        ts.subrange(i, ts.len() as int) == forms_tokens(es),
    ensures
        parse_all_at(ts, i as nat, acc) == Ok::<Seq<SpecExpr>, Seq<char>>(acc + es),
    decreases es.len(),
{
    if es.len() == 0 {
        assert(acc + es =~= acc);
    } else {
        let e = es[0];
        let rest = es.subrange(1, es.len() as int);
        let w = forms_tokens(es);
        let fe = form_tokens(e);
        let fr = forms_tokens(rest);
        lemma_form_tokens_start(e);
        assert(w == fe + fr);
        assert(w.subrange(0, fe.len() as int) =~= fe);
        assert(w.subrange(fe.len() as int, fe.len() as int + fr.len()) =~= fr);
        lemma_tokens_part(ts, i, w, 0, fe);
        lemma_tokens_part(ts, i, w, fe.len() as int, fr);
        lemma_parse_form_tokens(e, ts, i);
        lemma_parse_all_tokens(rest, ts, i + fe.len(), acc.push(e));
        assert(acc.push(e) + rest =~= acc + es);
    }
}

/// Parsing undoes printing: the tokens that spell a sequence of forms parse
/// back to exactly those forms.
pub proof fn law_parse_inverts_printing(es: Seq<SpecExpr>)
    ensures
        parse_spec(forms_tokens(es)) == Ok::<Seq<SpecExpr>, Seq<char>>(es),
{
    let ts = forms_tokens(es);
    assert(ts.subrange(0, ts.len() as int) =~= ts);
    lemma_parse_all_tokens(es, ts, 0, seq![]);
    assert(seq![] + es =~= es);
}

/// The model of a result of parsing one form.
pub open spec fn form_view(r: Result<Expr, String>, pos: nat) -> Result<(SpecExpr, nat), Seq<char>> {
    match r {
        Ok(e) => Ok((e@, pos)),
        Err(m) => Err(m@),
    }
}

/// The model of the result of [`Parser::parse`].
pub open spec fn parse_result_view(r: Result<Vec<Expr>, String>) -> Result<Seq<SpecExpr>, Seq<char>> {
    match r {
        Ok(v) => Ok(exprs_view(v@)),
        Err(m) => Err(m@),
    }
}

/// A recursive-descent parser over a token sequence.
pub struct Parser {
    tokens: Vec<Token>,
    pos: usize,
}

impl Parser {
    #[verifier::type_invariant]
    spec fn inv(self) -> bool {
        self.pos <= self.tokens@.len()
    }

    /// The models of the tokens being parsed.
    pub closed spec fn token_models(self) -> Seq<SpecToken> {
        tokens_view(self.tokens@)
    }

    /// The position of the next token to read.
    pub closed spec fn cursor(self) -> nat {
        self.pos as nat
    }

    /// Builds a parser over the given tokens.
    pub fn new(tokens: Vec<Token>) -> (p: Self)
        ensures
            p.token_models() == tokens_view(tokens@),
            p.cursor() == 0,
    {
        Parser { tokens, pos: 0 }
    }

    closed spec fn ts(self) -> Seq<SpecToken> {
        tokens_view(self.tokens@)
    }

    fn peek(&self) -> (r: Option<&Token>)
        ensures
            self.pos < self.tokens@.len() ==> r == Some(&self.tokens@[self.pos as int]),
            self.pos >= self.tokens@.len() ==> r is None,
    {
        if self.pos < self.tokens.len() {
            Some(&self.tokens[self.pos])
        } else {
            None
        }
    }

    fn advance(&mut self) -> (r: Option<Token>)
        ensures
            final(self).tokens@ == old(self).tokens@,
            old(self).pos < old(self).tokens@.len() ==> r is Some && r->0@
                == old(self).tokens@[old(self).pos as int]@ && final(self).pos == old(self).pos + 1,
            old(self).pos >= old(self).tokens@.len() ==> r is None && final(self).pos
                == old(self).pos,
    {
        proof {
            use_type_invariant(&*self);
        }
        if self.pos < self.tokens.len() {
            let t = self.tokens[self.pos].duplicate();
            self.pos = self.pos + 1;
            Some(t)
        } else {
            None
        }
    }

    /// Parses all the forms, in order, up to the end of the tokens.
    #[verifier::loop_isolation(false)]
    pub fn parse(self) -> (r: Result<Vec<Expr>, String>)
        ensures
            parse_result_view(r) == parse_all_at(self.token_models(), self.cursor(), seq![]),
    {
        proof {
            use_type_invariant(&self);
        }
        let ghost ts = self.ts();
        let ghost p0 = self.pos as nat;
        let mut p = self;
        let mut forms: Vec<Expr> = Vec::new();
        assert(exprs_view(forms@) =~= seq![]);
        while p.pos < p.tokens.len()
            invariant
                p.ts() == ts,
                p.pos <= ts.len(),
                parse_all_at(ts, p0, seq![]) == parse_all_at(ts, p.pos as nat, exprs_view(forms@)),
            decreases ts.len() - p.pos,
        {
            proof {
                use_type_invariant(&p);
                lemma_parse_form_advances(ts, p.pos as nat);
            }
            let ghost i = p.pos as nat;
            match p.parse_form() {
                Ok(e) => {
                    proof {
                        lemma_exprs_view_push(forms@, e);
                    }
                    forms.push(e);
                },
                Err(m) => {
                    return Err(m);
                },
            }
        }
        Ok(forms)
    }

    fn parse_form(&mut self) -> (r: Result<Expr, String>)
        ensures
            final(self).tokens@ == old(self).tokens@,
            form_view(r, final(self).pos as nat) == parse_form_at(old(self).ts(), old(self).pos as nat),
        decreases old(self).tokens@.len() - old(self).pos, 0nat,
    {
        proof {
            use_type_invariant(&*self);
        }
        let ghost ts = self.ts();
        let ghost i = self.pos as nat;
        proof {
            if i < ts.len() {
                assert(ts[i as int] == self.tokens@[i as int]@);
            }
        }
        match self.advance() {
            None => Err(String::from_str("unexpected end of input")),
            Some(t) => match t {
                Token::Int(n) => Ok(Expr::Int(n)),
                Token::Float(f) => Ok(Expr::Float(f)),
                Token::String(s) => Ok(Expr::String(s)),
                Token::Bool(b) => Ok(Expr::Bool(b)),
                Token::Symbol(s) => Ok(Expr::Symbol(s)),
                Token::Keyword(k) => Ok(Expr::Keyword(k)),
                Token::LParen => self.parse_list(),
                Token::LBracket => self.parse_vector(),
                Token::LBrace => self.parse_record(),
                Token::Quote => match self.parse_form() {
                    Ok(e) => Ok(Expr::Quote(Box::new(e))),
                    Err(m) => Err(m),
                },
                Token::Quasiquote => match self.parse_form() {
                    Ok(e) => Ok(Expr::Quasiquote(Box::new(e))),
                    Err(m) => Err(m),
                },
                Token::Unquote => match self.parse_form() {
                    Ok(e) => Ok(Expr::Unquote(Box::new(e))),
                    Err(m) => Err(m),
                },
                Token::UnquoteSplice => match self.parse_form() {
                    Ok(e) => Ok(Expr::UnquoteSplice(Box::new(e))),
                    Err(m) => Err(m),
                },
                Token::Colon => Err(String::from_str("unexpected token: Colon")),
                Token::RParen => Err(String::from_str("unexpected token: RParen")),
                Token::RBrace => Err(String::from_str("unexpected token: RBrace")),
                Token::RBracket => Err(String::from_str("unexpected token: RBracket")),
            },
        }
    }

    /// The items of a list or vector, after its opening bracket.
    #[verifier::loop_isolation(false)]
    fn parse_items(&mut self, vector: bool) -> (r: Result<Vec<Expr>, String>)
        ensures
            final(self).tokens@ == old(self).tokens@,
            (match r {
                Ok(v) => Ok((exprs_view(v@), final(self).pos as nat)),
                Err(m) => Err(m@),
            }) == parse_items_at(old(self).ts(), old(self).pos as nat, vector, seq![]),
        decreases old(self).tokens@.len() - old(self).pos, 1nat,
    {
        proof {
            use_type_invariant(&*self);
        }
        let ghost ts = self.ts();
        let ghost i0 = self.pos as nat;
        let ghost tokens0 = self.tokens@;
        let mut items: Vec<Expr> = Vec::new();
        assert(exprs_view(items@) =~= seq![]);
        loop
            invariant
                self.ts() == ts,
                self.tokens@ == tokens0,
                i0 <= self.pos <= ts.len(),
                parse_items_at(ts, i0, vector, seq![]) == parse_items_at(
                    ts,
                    self.pos as nat,
                    vector,
                    exprs_view(items@),
                ),
            decreases ts.len() - self.pos,
        {
            proof {
                use_type_invariant(&*self);
            }
            let at_close = match self.peek() {
                None => {
                    if vector {
                        return Err(String::from_str("unterminated vector (missing ']')"));
                    } else {
                        return Err(String::from_str("unterminated list (missing ')')"));
                    }
                },
                Some(t) => {
                    proof {
                        assert(ts[self.pos as int] == t@);
                    }
                    match t {
                        Token::RParen => !vector,
                        Token::RBracket => vector,
                        _ => false,
                    }
                },
            };
            if at_close {
                self.advance();
                return Ok(items);
            }
            proof {
                lemma_parse_form_advances(ts, self.pos as nat);
            }
            match self.parse_form() {
                Ok(e) => {
                    proof {
                        lemma_exprs_view_push(items@, e);
                    }
                    items.push(e);
                },
                Err(m) => {
                    return Err(m);
                },
            }
        }
    }

    fn parse_list(&mut self) -> (r: Result<Expr, String>)
        ensures
            final(self).tokens@ == old(self).tokens@,
            form_view(r, final(self).pos as nat) == (match parse_items_at(
                old(self).ts(),
                old(self).pos as nat,
                false,
                seq![],
            ) {
                Ok((items, k)) => Ok((SpecExpr::List(items), k)),
                Err(e) => Err(e),
            }),
        decreases old(self).tokens@.len() - old(self).pos, 2nat,
    {
        match self.parse_items(false) {
            Ok(items) => Ok(Expr::List(items)),
            Err(m) => Err(m),
        }
    }

    fn parse_vector(&mut self) -> (r: Result<Expr, String>)
        ensures
            final(self).tokens@ == old(self).tokens@,
            form_view(r, final(self).pos as nat) == (match parse_items_at(
                old(self).ts(),
                old(self).pos as nat,
                true,
                seq![],
            ) {
                Ok((items, k)) => Ok((SpecExpr::Vector(items), k)),
                Err(e) => Err(e),
            }),
        decreases old(self).tokens@.len() - old(self).pos, 2nat,
    {
        match self.parse_items(true) {
            Ok(items) => Ok(Expr::Vector(items)),
            Err(m) => Err(m),
        }
    }

    #[verifier::loop_isolation(false)]
    fn parse_record(&mut self) -> (r: Result<Expr, String>)
        ensures
            final(self).tokens@ == old(self).tokens@,
            form_view(r, final(self).pos as nat) == (match parse_fields_at(
                old(self).ts(),
                old(self).pos as nat,
                seq![],
            ) {
                Ok((fields, k)) => Ok((SpecExpr::Record(fields), k)),
                Err(e) => Err(e),
            }),
        decreases old(self).tokens@.len() - old(self).pos, 1nat,
    {
        proof {
            use_type_invariant(&*self);
        }
        let ghost ts = self.ts();
        let ghost i0 = self.pos as nat;
        let ghost tokens0 = self.tokens@;
        let mut fields: Vec<(String, Expr)> = Vec::new();
        assert(fields_view(fields@) =~= seq![]);
        loop
            invariant
                self.ts() == ts,
                self.tokens@ == tokens0,
                i0 <= self.pos <= ts.len(),
                parse_fields_at(ts, i0, seq![]) == parse_fields_at(
                    ts,
                    self.pos as nat,
                    fields_view(fields@),
                ),
            decreases ts.len() - self.pos,
        {
            proof {
                use_type_invariant(&*self);
            }
            let name = match self.peek() {
                None => {
                    return Err(String::from_str("unterminated record (missing '}')"));
                },
                Some(t) => {
                    proof {
                        assert(ts[self.pos as int] == t@);
                    }
                    match t {
                        Token::RBrace => {
                            self.advance();
                            return Ok(Expr::Record(fields));
                        },
                        Token::Keyword(name) => name.clone(),
                        _ => {
                            return Err(String::from_str("expected a keyword in record"));
                        },
                    }
                },
            };
            self.advance();
            proof {
                lemma_parse_form_advances(ts, self.pos as nat);
            }
            match self.parse_form() {
                Ok(value) => {
                    proof {
                        lemma_fields_view_push(fields@, (name, value));
                    }
                    fields.push((name, value));
                },
                Err(m) => {
                    return Err(m);
                },
            }
        }
    }
}

} // verus!
