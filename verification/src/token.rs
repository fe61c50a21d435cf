//! The token types produced by the lexer.

use vstd::prelude::*;

verus! {

/// A single lexical token — the smallest meaningful unit the lexer produces.
///
/// A float literal is carried as its decimal text (such as `3.14`): the
/// library only ever prints floats, so their text is all it needs of them.
#[derive(Debug, Clone, PartialEq)]
pub enum Token {
    /// A whole number.
    Int(i64),
    /// A floating-point number, as the decimal text `-?digits.digits`.
    Float(String),
    /// A string literal, with escapes already decoded.
    String(String),
    /// A boolean literal (`true` / `false`).
    Bool(bool),
    /// An identifier or operator symbol.
    Symbol(String),
    /// A record key, e.g. `:port` (without the colon).
    Keyword(String),
    /// A standalone `:` used to introduce a type annotation.
    Colon,
    LParen,
    RParen,
    LBrace,
    RBrace,
    LBracket,
    RBracket,
    Quote,
    Quasiquote,
    Unquote,
    UnquoteSplice,
}

/// The mathematical model of a [`Token`]: strings are character sequences.
pub enum SpecToken {
    Int(i64),
    Float(Seq<char>),
    String(Seq<char>),
    Bool(bool),
    Symbol(Seq<char>),
    Keyword(Seq<char>),
    Colon,
    LParen,
    RParen,
    LBrace,
    RBrace,
    LBracket,
    RBracket,
    Quote,
    Quasiquote,
    Unquote,
    UnquoteSplice,
}

impl View for Token {
    type V = SpecToken;

    open spec fn view(&self) -> SpecToken {
        match self {
            Token::Int(n) => SpecToken::Int(*n),
            Token::Float(t) => SpecToken::Float(t@),
            Token::String(s) => SpecToken::String(s@),
            Token::Bool(b) => SpecToken::Bool(*b),
            Token::Symbol(s) => SpecToken::Symbol(s@),
            Token::Keyword(k) => SpecToken::Keyword(k@),
            Token::Colon => SpecToken::Colon,
            Token::LParen => SpecToken::LParen,
            Token::RParen => SpecToken::RParen,
            Token::LBrace => SpecToken::LBrace,
            Token::RBrace => SpecToken::RBrace,
            Token::LBracket => SpecToken::LBracket,
            Token::RBracket => SpecToken::RBracket,
            Token::Quote => SpecToken::Quote,
            Token::Quasiquote => SpecToken::Quasiquote,
            Token::Unquote => SpecToken::Unquote,
            Token::UnquoteSplice => SpecToken::UnquoteSplice,
        }
    }
}

/// The models of a sequence of tokens.
pub open spec fn tokens_view(ts: Seq<Token>) -> Seq<SpecToken> {
    ts.map_values(|t: Token| t@)
}

impl Token {
    /// A copy of this token.
    pub fn duplicate(&self) -> (r: Token)
        ensures
            r@ == self@,
    {
        match self {
            Token::Int(n) => Token::Int(*n),
            Token::Float(t) => Token::Float(t.clone()),
            Token::String(s) => Token::String(s.clone()),
            Token::Bool(b) => Token::Bool(*b),
            Token::Symbol(s) => Token::Symbol(s.clone()),
            Token::Keyword(k) => Token::Keyword(k.clone()),
            Token::Colon => Token::Colon,
            Token::LParen => Token::LParen,
            Token::RParen => Token::RParen,
            Token::LBrace => Token::LBrace,
            Token::RBrace => Token::RBrace,
            Token::LBracket => Token::LBracket,
            Token::RBracket => Token::RBracket,
            Token::Quote => Token::Quote,
            Token::Quasiquote => Token::Quasiquote,
            Token::Unquote => Token::Unquote,
            Token::UnquoteSplice => Token::UnquoteSplice,
        }
    }
}

} // verus!
