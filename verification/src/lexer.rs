//! The lexer: turns source text into a stream of tokens.
//!
//! The lexer walks the input one character at a time and produces a flat list
//! of [`Token`]s, resolving the documented ambiguities (`:` as keyword vs
//! annotation, `-` as symbol vs negative number, `.` as decimal point vs field
//! access).
//!
//! The meaning of lexing is given by the spec functions of this module:
//! [`tokenize_spec`] is the token sequence (or the error message) that a source
//! text lexes to, defined one token at a time by [`lex_token`].

use vstd::prelude::*;
use crate::text::{push_char, string_of};
use crate::token::{SpecToken, Token, tokens_view};

verus! {

// ---------------------------------------------------------------------------
// Character classes
// ---------------------------------------------------------------------------

/// Whether `c` has the Unicode `Alphabetic` property (std's
/// `char::is_alphabetic`).
pub uninterp spec fn alphabetic(c: char) -> bool;

/// std's `char::is_alphabetic`: whether `c` has the Unicode `Alphabetic`
/// property. The contract names the result `alphabetic(c)` and states what
/// std's code fixes for ASCII (there it is `is_ascii_alphabetic`): below
/// U+0080 exactly the letters `a..=z` and `A..=Z` are alphabetic. The Unicode
/// tables behind the other characters are not restated here.
#[verifier::external_body]
fn char_is_alphabetic(c: char) -> (b: bool)
    ensures
        b == alphabetic(c),
        c <= '\x7f' ==> (b <==> (('a' <= c && c <= 'z') || ('A' <= c && c <= 'Z'))),
{
    c.is_alphabetic()
}

/// A letter: for ASCII exactly `a..=z` and `A..=Z`, beyond it the Unicode
/// `Alphabetic` property.
pub open spec fn letter(c: char) -> bool {
    if c <= '\x7f' {
        ('a' <= c && c <= 'z') || ('A' <= c && c <= 'Z')
    } else {
        alphabetic(c)
    }
}

/// Space, tab, newline or carriage return.
pub open spec fn whitespace(c: char) -> bool {
    c == ' ' || c == '\t' || c == '\n' || c == '\r'
}

/// An ASCII decimal digit.
pub open spec fn digit(c: char) -> bool {
    '0' <= c && c <= '9'
}

/// A valid first character of a symbol: a letter or one of `_ + - * / ! ? < > =`.
pub open spec fn symbol_start(c: char) -> bool {
    letter(c) || c == '_' || c == '+' || c == '-' || c == '*' || c == '/' || c == '!'
        || c == '?' || c == '<' || c == '>' || c == '='
}

/// A character that may continue a symbol: a symbol start, a digit, or `.`.
pub open spec fn symbol_char(c: char) -> bool {
    symbol_start(c) || digit(c) || c == '.'
}

/// Whether `c` is an ASCII decimal digit.
pub fn is_ascii_digit(c: char) -> (b: bool)
    ensures
        b == digit(c),
{
    '0' <= c && c <= '9'
}

/// Whether `c` is a valid first character of a symbol.
pub fn is_symbol_start(c: char) -> (b: bool)
    ensures
        b == symbol_start(c),
{
    char_is_alphabetic(c) || c == '_' || c == '+' || c == '-' || c == '*' || c == '/' || c == '!'
        || c == '?' || c == '<' || c == '>' || c == '='
}

fn is_symbol_char(c: char) -> (b: bool)
    ensures
        b == symbol_char(c),
{
    is_symbol_start(c) || is_ascii_digit(c) || c == '.'
}

// ---------------------------------------------------------------------------
// Error messages
// ---------------------------------------------------------------------------

pub open spec fn unterminated_string_msg() -> Seq<char> {
    "unterminated string"@
}

pub open spec fn unknown_escape_msg(c: char) -> Seq<char> {
    "unknown escape: \\"@.push(c)
}

pub open spec fn invalid_int_msg(text: Seq<char>) -> Seq<char> {
    "invalid int: "@ + text
}

pub open spec fn unexpected_char_msg(c: char) -> Seq<char> {
    "unexpected character: "@.push(c)
}

// ---------------------------------------------------------------------------
// The lexical grammar, one token at a time
// ---------------------------------------------------------------------------

/// The position of the first character at or after `i` that is neither
/// whitespace nor inside a `;` comment.
pub open spec fn skip_trivia(s: Seq<char>, i: nat) -> nat
    decreases s.len() - i, 0nat,
{
    if i >= s.len() {
        i
    } else if whitespace(s[i as int]) {
        skip_trivia(s, i + 1)
    } else if s[i as int] == ';' {
        skip_comment(s, i + 1)
    } else {
        i
    }
}

/// Inside a comment: skip up to (not including) the next newline, then go on
/// skipping trivia.
pub open spec fn skip_comment(s: Seq<char>, i: nat) -> nat
    decreases s.len() - i, 1nat,
{
    if i < s.len() && s[i as int] != '\n' {
        skip_comment(s, i + 1)
    } else {
        skip_trivia(s, i)
    }
}

/// The end of the run of digits that starts at `i`.
pub open spec fn digits_end(s: Seq<char>, i: nat) -> nat
    decreases s.len() - i,
{
    if i < s.len() && digit(s[i as int]) {
        digits_end(s, i + 1)
    } else {
        i
    }
}

/// The end of the run of symbol characters that starts at `i`.
pub open spec fn symbol_end(s: Seq<char>, i: nat) -> nat
    decreases s.len() - i,
{
    if i < s.len() && symbol_char(s[i as int]) {
        symbol_end(s, i + 1)
    } else {
        i
    }
}

/// The character that the escape `\c` stands for, if `c` is a known escape.
pub open spec fn unescape(c: char) -> Option<char> {
    if c == 'n' {
        Some('\n')
    } else if c == 't' {
        Some('\t')
    } else if c == 'r' {
        Some('\r')
    } else if c == '"' {
        Some('"')
    } else if c == '\\' {
        Some('\\')
    } else {
        None
    }
}

/// The body of a string literal from position `i` (after the opening quote),
/// with `acc` already read: the decoded contents and the position after the
/// closing quote, or the error message.
pub open spec fn string_body(s: Seq<char>, i: nat, acc: Seq<char>) -> Result<
    (Seq<char>, nat),
    Seq<char>,
>
    decreases s.len() - i,
{
    if i >= s.len() {
        Err(unterminated_string_msg())
    } else if s[i as int] == '"' {
        Ok((acc, i + 1))
    } else if s[i as int] == '\\' {
        if i + 1 >= s.len() {
            Err(unterminated_string_msg())
        } else {
            match unescape(s[i + 1 as int]) {
                Some(c) => string_body(s, i + 2, acc.push(c)),
                None => Err(unknown_escape_msg(s[i + 1 as int])),
            }
        }
    } else {
        string_body(s, i + 1, acc.push(s[i as int]))
    }
}

/// The value of a digit character.
pub open spec fn digit_value(c: char) -> int {
    c as int - 48
}

/// The value of a sequence of decimal digits (0 for none).
pub open spec fn decimal_value(ds: Seq<char>) -> int
    decreases ds.len(),
{
    if ds.len() == 0 {
        0
    } else {
        decimal_value(ds.drop_last()) * 10 + digit_value(ds.last())
    }
}

/// Whether every character of `s[from..to]` is a digit.
pub open spec fn all_digits(s: Seq<char>, from: int, to: int) -> bool {
    forall|m: int| from <= m < to ==> #[trigger] digit(s[m])
}

/// The `i64` that a text of the form `-?digits` denotes, or `None` when it has
/// no digit or its value does not fit in an `i64` (as std's `i64` parsing).
pub open spec fn parse_int_text(text: Seq<char>) -> Option<i64> {
    let neg = text.len() > 0 && text[0] == '-';
    let ds = if neg {
        text.drop_first()
    } else {
        text
    };
    let v = if neg {
        -decimal_value(ds)
    } else {
        decimal_value(ds)
    };
    if ds.len() == 0 {
        None
    } else if i64::MIN <= v && v <= i64::MAX {
        Some(v as i64)
    } else {
        None
    }
}

/// A number starting at `j`: an optional `-`, digits, and, when a `.` is
/// followed by a digit, a fractional part (a float, kept as its text).
pub open spec fn number_at(s: Seq<char>, j: nat) -> Result<(SpecToken, nat), Seq<char>> {
    let k = if j < s.len() && s[j as int] == '-' {
        j + 1
    } else {
        j
    };
    let d = digits_end(s, k);
    if d + 1 < s.len() && s[d as int] == '.' && digit(s[d + 1 as int]) {
        let e = digits_end(s, d + 1);
        Ok((SpecToken::Float(s.subrange(j as int, e as int)), e))
    } else {
        let text = s.subrange(j as int, d as int);
        match parse_int_text(text) {
            Some(v) => Ok((SpecToken::Int(v), d)),
            None => Err(invalid_int_msg(text)),
        }
    }
}

/// The symbol starting at `j`, where the spellings `true`/`false` are booleans.
pub open spec fn symbol_at(s: Seq<char>, j: nat) -> SpecToken {
    let t = s.subrange(j as int, symbol_end(s, j) as int);
    if t == "true"@ {
        SpecToken::Bool(true)
    } else if t == "false"@ {
        SpecToken::Bool(false)
    } else {
        SpecToken::Symbol(t)
    }
}

/// The string literal whose opening quote is at `j`.
pub open spec fn string_at(s: Seq<char>, j: nat) -> Result<(SpecToken, nat), Seq<char>> {
    match string_body(s, j + 1, seq![]) {
        Ok((body, k)) => Ok((SpecToken::String(body), k)),
        Err(e) => Err(e),
    }
}

/// The token that starts at `j` (a position holding neither whitespace nor a
/// comment) and the position after it, or the error message.
pub open spec fn lex_token(s: Seq<char>, j: nat) -> Result<(SpecToken, nat), Seq<char>> {
    let c = s[j as int];
    if c == '(' {
        Ok((SpecToken::LParen, j + 1))
    } else if c == ')' {
        Ok((SpecToken::RParen, j + 1))
    } else if c == '{' {
        Ok((SpecToken::LBrace, j + 1))
    } else if c == '}' {
        Ok((SpecToken::RBrace, j + 1))
    } else if c == '[' {
        Ok((SpecToken::LBracket, j + 1))
    } else if c == ']' {
        Ok((SpecToken::RBracket, j + 1))
    } else if c == '\'' {
        Ok((SpecToken::Quote, j + 1))
    } else if c == '`' {
        Ok((SpecToken::Quasiquote, j + 1))
    } else if c == ',' {
        if j + 1 < s.len() && s[j + 1 as int] == '@' {
            Ok((SpecToken::UnquoteSplice, j + 2))
        } else {
            Ok((SpecToken::Unquote, j + 1))
        }
    } else if c == '"' {
        string_at(s, j)
    } else if digit(c) {
        number_at(s, j)
    } else if c == '-' {
        if j + 1 < s.len() && digit(s[j + 1 as int]) {
            number_at(s, j)
        } else {
            Ok((symbol_at(s, j), symbol_end(s, j)))
        }
    } else if c == ':' {
        if j + 1 < s.len() && symbol_start(s[j + 1 as int]) {
            Ok(
                (
                    SpecToken::Keyword(s.subrange(j + 1 as int, symbol_end(s, j + 1) as int)),
                    symbol_end(s, j + 1),
                ),
            )
        } else {
            Ok((SpecToken::Colon, j + 1))
        }
    } else if symbol_start(c) {
        Ok((symbol_at(s, j), symbol_end(s, j)))
    } else {
        Err(unexpected_char_msg(c))
    }
}

/// Lexing the rest of `s` from position `i`, with the tokens `acc` already
/// produced: the whole token sequence, or the first error met.
pub open spec fn lex_from(s: Seq<char>, i: nat, acc: Seq<SpecToken>) -> Result<
    Seq<SpecToken>,
    Seq<char>,
>
    decreases s.len() - i,
{
    let j = skip_trivia(s, i);
    if j >= s.len() {
        Ok(acc)
    } else {
        match lex_token(s, j) {
            Err(e) => Err(e),
            Ok((t, k)) => {
                proof {
                    lemma_skip_trivia_bounds(s, i);
                    lemma_lex_token_advances(s, j);
                }
                lex_from(s, k, acc.push(t))
            },
        }
    }
}

/// What the source text `s` lexes to: its tokens, or the first error message.
pub open spec fn tokenize_spec(s: Seq<char>) -> Result<Seq<SpecToken>, Seq<char>> {
    lex_from(s, 0, seq![])
}

// ---------------------------------------------------------------------------
// Lemmas about the grammar
// ---------------------------------------------------------------------------

pub proof fn lemma_skip_trivia_bounds(s: Seq<char>, i: nat)
    ensures
        skip_trivia(s, i) >= i,
        i <= s.len() ==> skip_trivia(s, i) <= s.len(),
    decreases s.len() - i, 0nat,
{
    if i < s.len() {
        if whitespace(s[i as int]) {
            lemma_skip_trivia_bounds(s, i + 1);
        } else if s[i as int] == ';' {
            lemma_skip_comment_bounds(s, i + 1);
        }
    }
}

pub proof fn lemma_skip_comment_bounds(s: Seq<char>, i: nat)
    ensures
        skip_comment(s, i) >= i,
        i <= s.len() ==> skip_comment(s, i) <= s.len(),
    decreases s.len() - i, 1nat,
{
    if i < s.len() && s[i as int] != '\n' {
        lemma_skip_comment_bounds(s, i + 1);
    } else {
        lemma_skip_trivia_bounds(s, i);
    }
}

pub proof fn lemma_digits_end(s: Seq<char>, i: nat)
    requires
        i <= s.len(),
    ensures
        i <= digits_end(s, i) <= s.len(),
        i < s.len() && digit(s[i as int]) ==> digits_end(s, i) > i,
        all_digits(s, i as int, digits_end(s, i) as int),
    decreases s.len() - i,
{
    if i < s.len() && digit(s[i as int]) {
        lemma_digits_end(s, i + 1);
    }
}

pub proof fn lemma_symbol_end(s: Seq<char>, i: nat)
    requires
        i <= s.len(),
    ensures
        i <= symbol_end(s, i) <= s.len(),
        i < s.len() && symbol_char(s[i as int]) ==> symbol_end(s, i) > i,
    decreases s.len() - i,
{
    if i < s.len() && symbol_char(s[i as int]) {
        lemma_symbol_end(s, i + 1);
    }
}

pub proof fn lemma_string_body_advances(s: Seq<char>, i: nat, acc: Seq<char>)
    ensures
        string_body(s, i, acc) matches Ok((_, k)) ==> i < k <= s.len(),
    decreases s.len() - i,
{
    if i < s.len() && s[i as int] != '"' {
        if s[i as int] == '\\' {
            if i + 1 < s.len() {
                if let Some(c) = unescape(s[i + 1 as int]) {
                    lemma_string_body_advances(s, i + 2, acc.push(c));
                }
            }
        } else {
            lemma_string_body_advances(s, i + 1, acc.push(s[i as int]));
        }
    }
}

pub proof fn lemma_number_advances(s: Seq<char>, j: nat)
    requires
        j < s.len(),
        digit(s[j as int]) || (s[j as int] == '-' && j + 1 < s.len() && digit(s[j + 1 as int])),
    ensures
        number_at(s, j) matches Ok((_, k)) ==> j < k <= s.len(),
{
    let k = if s[j as int] == '-' {
        j + 1
    } else {
        j
    };
    lemma_digits_end(s, k);
    let d = digits_end(s, k);
    if d + 1 < s.len() {
        lemma_digits_end(s, d + 1);
    }
}

pub proof fn lemma_lex_token_advances(s: Seq<char>, j: nat)
    ensures
        j < s.len() ==> (lex_token(s, j) matches Ok((_, k)) ==> j < k <= s.len()),
{
    if j < s.len() {
        let c = s[j as int];
        lemma_string_body_advances(s, j + 1, seq![]);
        lemma_symbol_end(s, j);
        if j + 1 <= s.len() {
            lemma_symbol_end(s, j + 1);
        }
        if digit(c) || (c == '-' && j + 1 < s.len() && digit(s[j + 1 as int])) {
            lemma_number_advances(s, j);
        }
    }
}

/// `:` immediately followed by a symbol character starts a keyword (the
/// record key, without the colon); followed by anything else, or by nothing,
/// it is the annotation marker.
pub proof fn law_colon_keyword_or_marker(s: Seq<char>, j: nat)
    requires
        j < s.len(),
        s[j as int] == ':',
    ensures
        j + 1 < s.len() && symbol_start(s[j + 1 as int]) ==> lex_token(s, j) == Ok::<
            (SpecToken, nat),
            Seq<char>,
        >(
            (
                SpecToken::Keyword(s.subrange(j + 1 as int, symbol_end(s, j + 1) as int)),
                symbol_end(s, j + 1),
            ),
        ),
        !(j + 1 < s.len() && symbol_start(s[j + 1 as int])) ==> lex_token(s, j) == Ok::<
            (SpecToken, nat),
            Seq<char>,
        >((SpecToken::Colon, j + 1)),
{
}

/// `-` followed by a digit is the sign of a number; otherwise it starts a
/// symbol.
pub proof fn law_minus_sign_or_symbol(s: Seq<char>, j: nat)
    requires
        j < s.len(),
        s[j as int] == '-',
    ensures
        j + 1 < s.len() && digit(s[j + 1 as int]) ==> lex_token(s, j) == number_at(s, j),
        !(j + 1 < s.len() && digit(s[j + 1 as int])) ==> lex_token(s, j) == Ok::<
            (SpecToken, nat),
            Seq<char>,
        >((SpecToken::Symbol(s.subrange(j as int, symbol_end(s, j) as int)), symbol_end(s, j))),
{
    reveal_strlit("true");
    reveal_strlit("false");
    let t = s.subrange(j as int, symbol_end(s, j) as int);
    lemma_symbol_end(s, j);
    assert(t[0] == '-');
    assert(t != "true"@);
    assert(t != "false"@);
}

/// A number is read greedily, and is a float exactly when its digits are
/// followed by a `.` and another digit; a `.` anywhere else is a symbol
/// character.
pub proof fn law_float_needs_digits_on_both_sides(s: Seq<char>, j: nat)
    requires
        j < s.len(),
        digit(s[j as int]),
    ensures
        ({
            let d = digits_end(s, j);
            &&& d + 1 < s.len() && s[d as int] == '.' && digit(s[d + 1 as int]) ==> lex_token(s, j)
                == Ok::<(SpecToken, nat), Seq<char>>(
                (
                    SpecToken::Float(s.subrange(j as int, digits_end(s, d + 1) as int)),
                    digits_end(s, d + 1),
                ),
            )
            &&& !(d + 1 < s.len() && s[d as int] == '.' && digit(s[d + 1 as int])) ==> (lex_token(
                s,
                j,
            ) matches Ok((t, k)) ==> t is Int && k == d)
        }),
        symbol_char('.'),
{
}

/// A digit prefix never has a larger value than the whole digit run.
proof fn lemma_decimal_prefix(s: Seq<char>, a: int, i: int, b: int)
    requires
        0 <= a <= i <= b <= s.len(),
        all_digits(s, a, b),
    ensures
        0 <= decimal_value(s.subrange(a, i)) <= decimal_value(s.subrange(a, b)),
    decreases b - i,
{
    if i < b {
        lemma_decimal_prefix(s, a, i, b - 1);
        assert(s.subrange(a, b).drop_last() =~= s.subrange(a, b - 1));
        assert(digit(s[b - 1]));
    } else {
        lemma_decimal_nonneg(s, a, b);
    }
}

proof fn lemma_decimal_nonneg(s: Seq<char>, a: int, b: int)
    requires
        0 <= a <= b <= s.len(),
        all_digits(s, a, b),
    ensures
        0 <= decimal_value(s.subrange(a, b)),
    decreases b - a,
{
    if a < b {
        lemma_decimal_nonneg(s, a, b - 1);
        assert(s.subrange(a, b).drop_last() =~= s.subrange(a, b - 1));
        assert(digit(s[b - 1]));
    }
}

/// Parses the text `chars[from..to]`, of the form `-?digits`, as an `i64`.
#[verifier::loop_isolation(false)]
fn parse_int(chars: &Vec<char>, from: usize, to: usize) -> (r: Option<i64>)
    requires
        from <= to <= chars@.len(),
        ({
            let st = if from < to && chars@[from as int] == '-' {
                from + 1
            } else {
                from as int
            };
            all_digits(chars@, st, to as int)
        }),
    ensures
        r == parse_int_text(chars@.subrange(from as int, to as int)),
{
    let ghost text = chars@.subrange(from as int, to as int);
    let neg = from < to && chars[from] == '-';
    let start = if neg {
        from + 1
    } else {
        from
    };
    let ghost ds = chars@.subrange(start as int, to as int);
    assert(text.len() > 0 ==> text[0] == chars@[from as int]);
    assert(neg == (text.len() > 0 && text[0] == '-'));
    assert(ds =~= (if neg {
        text.drop_first()
    } else {
        text
    }));
    if start == to {
        assert(ds.len() == 0);
        return None;
    }
    let mut i = start;
    let mut acc: i64 = 0;
    while i < to
        invariant
            start <= i <= to <= chars@.len(),
            all_digits(chars@, start as int, to as int),
            ds == chars@.subrange(start as int, to as int),
            acc == (if neg {
                -decimal_value(chars@.subrange(start as int, i as int))
            } else {
                decimal_value(chars@.subrange(start as int, i as int))
            }),
        decreases to - i,
    {
        let c = chars[i];
        assert(digit(chars@[i as int]));
        let d: i64 = (c as u32 - 48u32) as i64;
        let ghost prefix = chars@.subrange(start as int, i + 1);
        assert(prefix.drop_last() =~= chars@.subrange(start as int, i as int));
        assert(decimal_value(prefix) == decimal_value(chars@.subrange(start as int, i as int)) * 10
            + d);
        proof {
            lemma_decimal_prefix(chars@, start as int, i + 1, to as int);
        }
        let next = if neg {
            match acc.checked_mul(10) {
                Some(a) => a.checked_sub(d),
                None => None,
            }
        } else {
            match acc.checked_mul(10) {
                Some(a) => a.checked_add(d),
                None => None,
            }
        };
        match next {
            Some(v) => {
                acc = v;
            },
            None => {
                return None;
            },
        }
        i = i + 1;
    }
    assert(chars@.subrange(start as int, i as int) =~= ds);
    Some(acc)
}

// ---------------------------------------------------------------------------
// The lexer
// ---------------------------------------------------------------------------

/// A cursor over the source text.
///
/// Holds the input as a list of characters plus a position, and exposes
/// `peek`/`advance` primitives that the scanning methods build on.
pub struct Lexer {
    /// The source, split into individual characters.
    chars: Vec<char>,
    /// The current cursor position (an index into `chars`).
    pos: usize,
}

/// The model of a lexing step: the token and the position after it, or the
/// error message.
pub open spec fn step_view(r: Result<Token, String>, pos: nat) -> Result<(SpecToken, nat), Seq<char>> {
    match r {
        Ok(t) => Ok((t@, pos)),
        Err(e) => Err(e@),
    }
}

/// The model of the result of [`Lexer::tokenize`].
pub open spec fn lex_result_view(r: Result<Vec<Token>, String>) -> Result<Seq<SpecToken>, Seq<char>> {
    match r {
        Ok(v) => Ok(tokens_view(v@)),
        Err(e) => Err(e@),
    }
}

impl Lexer {
    #[verifier::type_invariant]
    spec fn inv(self) -> bool {
        self.pos <= self.chars@.len()
    }

    /// The source text, as characters.
    pub closed spec fn text(self) -> Seq<char> {
        self.chars@
    }

    /// The cursor position.
    pub closed spec fn cursor(self) -> nat {
        self.pos as nat
    }

    /// Builds a lexer over the given source text.
    pub fn new(source: &str) -> (l: Self)
        ensures
            l.text() == source@,
            l.cursor() == 0,
    {
        Lexer { chars: crate::text::chars_of(source), pos: 0 }
    }

    /// Returns the character at the cursor without moving, or `None` at end of input.
    fn peek(&self) -> (r: Option<char>)
        ensures
            r == (if self.pos < self.chars@.len() {
                Some(self.chars@[self.pos as int])
            } else {
                None::<char>
            }),
    {
        proof {
            use_type_invariant(self);
        }
        if self.pos < self.chars.len() {
            Some(self.chars[self.pos])
        } else {
            None
        }
    }

    /// Returns the character at the cursor and advances by one (the cursor
    /// stays at the end of the input once there).
    fn advance(&mut self) -> (r: Option<char>)
        ensures
            final(self).chars@ == old(self).chars@,
            r == (if old(self).pos < old(self).chars@.len() {
                Some(old(self).chars@[old(self).pos as int])
            } else {
                None::<char>
            }),
            final(self).pos == (if old(self).pos < old(self).chars@.len() {
                old(self).pos + 1
            } else {
                old(self).pos as int
            }),
    {
        proof {
            use_type_invariant(&*self);
        }
        let c = self.peek();
        if self.pos < self.chars.len() {
            self.pos = self.pos + 1;
        }
        c
    }

    /// Returns the character just after the cursor without moving (used for lookahead).
    fn peek_next(&self) -> (r: Option<char>)
        ensures
            r == (if self.pos + 1 < self.chars@.len() {
                Some(self.chars@[self.pos + 1])
            } else {
                None::<char>
            }),
    {
        proof {
            use_type_invariant(self);
        }
        if self.pos < self.chars.len() && self.pos + 1 < self.chars.len() {
            Some(self.chars[self.pos + 1])
        } else {
            None
        }
    }

    /// Skips whitespace and `;` line comments, leaving the cursor on the next real token.
    fn skip_whitespace_and_comments(&mut self)
        ensures
            final(self).chars@ == old(self).chars@,
            final(self).pos == skip_trivia(old(self).chars@, old(self).pos as nat),
    {
        proof {
            use_type_invariant(&*self);
        }
        let ghost s = self.chars@;
        let ghost target = skip_trivia(s, self.pos as nat);
        loop
            invariant
                self.chars@ == s,
                self.pos <= s.len(),
                skip_trivia(s, self.pos as nat) == target,
            ensures
                self.chars@ == s,
                self.pos == target,
            decreases s.len() - self.pos,
        {
            match self.peek() {
                Some(c) => {
                    if c == ' ' || c == '\t' || c == '\n' || c == '\r' {
                        self.advance();
                    } else if c == ';' {
                        let ghost before = self.pos;
                        // A comment runs to end of line: consume up to (not including) the newline.
                        loop
                            invariant
                                self.chars@ == s,
                                before <= self.pos <= s.len(),
                                before < s.len(),
                                self.pos == before ==> s[self.pos as int] == ';',
                                skip_comment(s, self.pos as nat) == target,
                            ensures
                                self.chars@ == s,
                                before < self.pos <= s.len(),
                                skip_trivia(s, self.pos as nat) == target,
                            decreases s.len() - self.pos,
                        {
                            match self.peek() {
                                Some(c) => {
                                    if c == '\n' {
                                        break;
                                    }
                                    self.advance();
                                },
                                None => {
                                    break;
                                },
                            }
                        }
                    } else {
                        break;
                    }
                },
                None => {
                    break;
                },
            }
        }
    }

    /// Reads a string literal, returning a `String` token with escapes decoded.
    #[verifier::loop_isolation(false)]
    fn lex_string(&mut self) -> (r: Result<Token, String>)
        requires
            old(self).pos < old(self).chars@.len(),
            old(self).chars@[old(self).pos as int] == '"',
        ensures
            final(self).chars@ == old(self).chars@,
            step_view(r, final(self).pos as nat) == string_at(old(self).chars@, old(self).pos as nat),
    {
        proof {
            use_type_invariant(&*self);
        }
        let ghost s = self.chars@;
        let ghost j = self.pos as nat;
        self.advance();  // consume the opening quote
        let mut out = String::new();
        loop
            invariant
                self.chars@ == s,
                self.pos <= s.len(),
                string_body(s, j + 1, seq![]) == string_body(s, self.pos as nat, out@),
            decreases s.len() - self.pos,
        {
            match self.advance() {
                None => {
                    return Err(String::from_str("unterminated string"));
                },
                Some(c) => {
                    if c == '"' {
                        return Ok(Token::String(out));
                    } else if c == '\\' {
                        match self.advance() {
                            None => {
                                return Err(String::from_str("unterminated string"));
                            },
                            Some(esc) => {
                                if esc == 'n' {
                                    push_char(&mut out, '\n');
                                } else if esc == 't' {
                                    push_char(&mut out, '\t');
                                } else if esc == 'r' {
                                    push_char(&mut out, '\r');
                                } else if esc == '"' {
                                    push_char(&mut out, '"');
                                } else if esc == '\\' {
                                    push_char(&mut out, '\\');
                                } else {
                                    let mut m = String::from_str("unknown escape: \\");
                                    push_char(&mut m, esc);
                                    return Err(m);
                                }
                            },
                        }
                    } else {
                        push_char(&mut out, c);
                    }
                },
            }
        }
    }

    /// Reads a number, returning an `Int` token or a `Float` token carrying its text.
    fn lex_number(&mut self) -> (r: Result<Token, String>)
        requires
            old(self).pos < old(self).chars@.len(),
        ensures
            final(self).chars@ == old(self).chars@,
            step_view(r, final(self).pos as nat) == number_at(old(self).chars@, old(self).pos as nat),
    {
        proof {
            use_type_invariant(&*self);
        }
        let ghost s = self.chars@;
        let start = self.pos;
        if self.chars[self.pos] == '-' {
            self.advance();
        }
        let ghost k = self.pos as nat;
        proof {
            lemma_digits_end(s, k);
        }
        loop
            invariant
                self.chars@ == s,
                k <= self.pos <= s.len(),
                digits_end(s, self.pos as nat) == digits_end(s, k),
            ensures
                self.chars@ == s,
                self.pos == digits_end(s, k),
            decreases s.len() - self.pos,
        {
            match self.peek() {
                Some(c) => {
                    if is_ascii_digit(c) {
                        self.advance();
                    } else {
                        break;
                    }
                },
                None => {
                    break;
                },
            }
        }
        let d = self.pos;
        let next_is_digit = match self.peek_next() {
            Some(c) => is_ascii_digit(c),
            None => false,
        };
        let at_dot = match self.peek() {
            Some(c) => c == '.',
            None => false,
        };
        if at_dot && next_is_digit {
            self.advance();
            let ghost f = self.pos as nat;
            loop
                invariant
                    self.chars@ == s,
                    f <= self.pos <= s.len(),
                    digits_end(s, self.pos as nat) == digits_end(s, f),
                ensures
                    self.chars@ == s,
                    self.pos == digits_end(s, f),
                decreases s.len() - self.pos,
            {
                match self.peek() {
                    Some(c) => {
                        if is_ascii_digit(c) {
                            self.advance();
                        } else {
                            break;
                        }
                    },
                    None => {
                        break;
                    },
                }
            }
            let text = string_of(&self.chars, start, self.pos);
            return Ok(Token::Float(text));
        }
        match parse_int(&self.chars, start, d) {
            Some(v) => Ok(Token::Int(v)),
            None => {
                let mut m = String::from_str("invalid int: ");
                let text = string_of(&self.chars, start, d);
                crate::text::push_string(&mut m, &text);
                Err(m)
            },
        }
    }

    /// Reads a run of symbol characters, returning them as a `String`.
    ///
    /// A symbol character is a symbol-start, a digit, or a `.` (field access).
    fn read_symbol_chars(&mut self) -> (r: String)
        ensures
            final(self).chars@ == old(self).chars@,
            final(self).pos == symbol_end(old(self).chars@, old(self).pos as nat),
            r@ == old(self).chars@.subrange(old(self).pos as int, final(self).pos as int),
    {
        proof {
            use_type_invariant(&*self);
        }
        let ghost s = self.chars@;
        let start = self.pos;
        loop
            invariant
                self.chars@ == s,
                start <= self.pos <= s.len(),
                symbol_end(s, self.pos as nat) == symbol_end(s, start as nat),
            ensures
                self.chars@ == s,
                self.pos == symbol_end(s, start as nat),
            decreases s.len() - self.pos,
        {
            match self.peek() {
                Some(c) => {
                    if is_symbol_char(c) {
                        self.advance();
                    } else {
                        break;
                    }
                },
                None => {
                    break;
                },
            }
        }
        string_of(&self.chars, start, self.pos)
    }

    /// Reads a symbol, mapping the spellings `true`/`false` to `Bool` tokens.
    fn lex_symbol(&mut self) -> (t: Token)
        ensures
            final(self).chars@ == old(self).chars@,
            final(self).pos == symbol_end(old(self).chars@, old(self).pos as nat),
            t@ == symbol_at(old(self).chars@, old(self).pos as nat),
    {
        let s = self.read_symbol_chars();
        if s.eq(&String::from_str("true")) {
            Token::Bool(true)
        } else if s.eq(&String::from_str("false")) {
            Token::Bool(false)
        } else {
            Token::Symbol(s)
        }
    }

    /// Reads a keyword (`:name`). Called only after the `:` is confirmed.
    fn lex_keyword(&mut self) -> (t: Token)
        requires
            old(self).pos < old(self).chars@.len(),
        ensures
            final(self).chars@ == old(self).chars@,
            final(self).pos == symbol_end(old(self).chars@, (old(self).pos + 1) as nat),
            t@ == SpecToken::Keyword(
                old(self).chars@.subrange(
                    old(self).pos + 1 as int,
                    symbol_end(old(self).chars@, (old(self).pos + 1) as nat) as int,
                ),
            ),
    {
        self.advance();  // skip the ':'
        let s = self.read_symbol_chars();
        Token::Keyword(s)
    }

    /// Turns the whole source text into tokens.
    ///
    /// The result is [`tokenize_spec`] of the text: the tokens in order, or the
    /// message of the first lexical error.
    #[verifier::loop_isolation(false)]
    pub fn tokenize(self) -> (r: Result<Vec<Token>, String>)
        ensures
            lex_result_view(r) == lex_from(self.text(), self.cursor(), seq![]),
    {
        proof {
            use_type_invariant(&self);
        }
        let mut lx = self;
        proof {
        }
        let ghost s = lx.chars@;
        let ghost p0 = lx.pos as nat;
        let mut tokens: Vec<Token> = Vec::new();
        assert(tokens_view(tokens@) =~= seq![]);
        loop
            invariant
                lx.chars@ == s,
                lx.pos <= s.len(),
                lex_from(s, p0, seq![]) == lex_from(s, lx.pos as nat, tokens_view(tokens@)),
            decreases s.len() - lx.pos,
        {
            let ghost i = lx.pos as nat;
            let ghost acc = tokens_view(tokens@);
            lx.skip_whitespace_and_comments();
            proof {
                lemma_skip_trivia_bounds(s, i);
            }
            let ghost j = lx.pos as nat;
            let c = match lx.peek() {
                None => {
                    break;
                },
                Some(c) => c,
            };
            proof {
                lemma_lex_token_advances(s, j);
            }
            let r: Result<Token, String> = if c == '(' {
                lx.advance();
                Ok(Token::LParen)
            } else if c == ')' {
                lx.advance();
                Ok(Token::RParen)
            } else if c == '{' {
                lx.advance();
                Ok(Token::LBrace)
            } else if c == '}' {
                lx.advance();
                Ok(Token::RBrace)
            } else if c == '[' {
                lx.advance();
                Ok(Token::LBracket)
            } else if c == ']' {
                lx.advance();
                Ok(Token::RBracket)
            } else if c == '\'' {
                lx.advance();
                Ok(Token::Quote)
            } else if c == '`' {
                lx.advance();
                Ok(Token::Quasiquote)
            } else if c == ',' {
                lx.advance();
                let at = match lx.peek() {
                    Some(c2) => c2 == '@',
                    None => false,
                };
                if at {
                    lx.advance();
                    Ok(Token::UnquoteSplice)
                } else {
                    Ok(Token::Unquote)
                }
            } else if c == '"' {
                lx.lex_string()
            } else if is_ascii_digit(c) {
                lx.lex_number()
            } else if c == '-' {
                let next_is_digit = match lx.peek_next() {
                    Some(c2) => is_ascii_digit(c2),
                    None => false,
                };
                if next_is_digit {
                    lx.lex_number()
                } else {
                    Ok(lx.lex_symbol())
                }
            } else if c == ':' {
                let next_is_symbol = match lx.peek_next() {
                    Some(c2) => is_symbol_start(c2),
                    None => false,
                };
                if next_is_symbol {
                    Ok(lx.lex_keyword())
                } else {
                    lx.advance();
                    Ok(Token::Colon)
                }
            } else if is_symbol_start(c) {
                Ok(lx.lex_symbol())
            } else {
                let mut m = String::from_str("unexpected character: ");
                push_char(&mut m, c);
                Err(m)
            };
            assert(step_view(r, lx.pos as nat) == lex_token(s, j));
            match r {
                Ok(t) => {
                    tokens.push(t);
                    assert(tokens_view(tokens@) =~= acc.push(t@));
                },
                Err(e) => {
                    return Err(e);
                },
            }
        }
        Ok(tokens)
    }
}

} // verus!
