//! Printing tokens back to source text, and the laws that the lexer reads
//! printed tokens back: an escaped, quoted text lexes to the text itself, and
//! a sequence of tokens printed with single spaces lexes to those tokens.

use vstd::prelude::*;
use crate::lexer::{
    decimal_value, digit, digit_value, digits_end, lex_from, lex_token,
    letter, parse_int_text, skip_trivia, string_at, string_body,
    symbol_char, symbol_end, symbol_start, tokenize_spec, unescape, whitespace,
};
use crate::output::{bool_text, escape_char, escape_text, quoted};
use crate::text::{digit_char, int_text, nat_digits};
use crate::token::SpecToken;

verus! {

// ---------------------------------------------------------------------------
// Decimal digits
// ---------------------------------------------------------------------------

proof fn lemma_digit_char(d: nat)
    requires
        d < 10,
    ensures
        digit(digit_char(d)),
        digit_value(digit_char(d)) == d,
{
}

/// The decimal digits of `n` are digits, at least one, and denote `n`.
proof fn lemma_nat_digits(n: nat)
    ensures
        nat_digits(n).len() > 0,
        forall|i: int| 0 <= i < nat_digits(n).len() ==> #[trigger] digit(nat_digits(n)[i]),
        decimal_value(nat_digits(n)) == n,
    decreases n,
{
    lemma_digit_char(n % 10);
    if n >= 10 {
        lemma_nat_digits(n / 10);
        let ds = nat_digits(n);
        assert(ds.drop_last() =~= nat_digits(n / 10));
        assert(ds.last() == digit_char(n % 10));
        assert(decimal_value(ds) == (n / 10) * 10 + n % 10);
        assert((n / 10) * 10 + n % 10 == n) by (nonlinear_arith);
    } else {
        assert(nat_digits(n).drop_last() =~= Seq::<char>::empty());
        assert(decimal_value(Seq::<char>::empty()) == 0);
    }
}

// ---------------------------------------------------------------------------
// Strings
// ---------------------------------------------------------------------------

/// A character that the lexer reads back from its escaped form: any but the
/// control characters below U+0020 other than newline, tab and carriage
/// return, and DEL (those are written as `\u00XX`, which the lexer does not
/// read).
pub open spec fn readable_char(c: char) -> bool {
    (!(' ' > c) && c != '\x7f') || c == '\n' || c == '\t' || c == '\r'
}

/// A text made of readable characters only.
pub open spec fn readable_text(t: Seq<char>) -> bool {
    forall|i: int| 0 <= i < t.len() ==> #[trigger] readable_char(t[i])
}

proof fn lemma_escape_text_append(x: Seq<char>, y: Seq<char>)
    ensures
        escape_text(x + y) == escape_text(x) + escape_text(y),
    decreases y.len(),
{
    if y.len() == 0 {
        assert(x + y =~= x);
        assert(escape_text(x) + escape_text(y) =~= escape_text(x));
    } else {
        lemma_escape_text_append(x, y.drop_last());
        assert((x + y).drop_last() =~= x + y.drop_last());
        assert((x + y).last() == y.last());
        assert(escape_text(x + y) =~= escape_text(x) + escape_text(y));
    }
}

proof fn lemma_escape_text_one(c: char)
    ensures
        escape_text(seq![c]) == escape_char(c),
{
    assert(seq![c].drop_last() =~= Seq::<char>::empty());
    assert(escape_text(Seq::<char>::empty()) + escape_char(c) =~= escape_char(c));
}

/// Reading the body of a quoted, escaped text `t` that stands at `j` in `s`,
/// from just after the escaped form of its first `m` characters.
proof fn lemma_string_body_reads(s: Seq<char>, j: nat, t: Seq<char>, m: nat)
    requires
        readable_text(t),
        m <= t.len(),
        j + quoted(t).len() <= s.len(),
        s.subrange(j as int, (j + quoted(t).len()) as int) == quoted(t),
    ensures
        string_body(s, j + 1 + escape_text(t.subrange(0, m as int)).len(), t.subrange(0, m as int))
            == Ok::<(Seq<char>, nat), Seq<char>>((t, j + quoted(t).len())),
    decreases t.len() - m,
{
    let q = quoted(t);
    let pre = t.subrange(0, m as int);
    let e = escape_text(pre).len();
    let p = j + 1 + e;
    assert(s.subrange(j as int, (j + q.len()) as int) == q);
    if m == t.len() {
        assert(pre =~= t);
        assert(q[q.len() - 1] == '"');
        assert(s[p as int] == s.subrange(j as int, (j + q.len()) as int)[q.len() - 1]);
    } else {
        let c = t[m as int];
        let post = t.subrange(m + 1 as int, t.len() as int);
        assert(t =~= pre + seq![c] + post);
        lemma_escape_text_append(pre + seq![c], post);
        lemma_escape_text_append(pre, seq![c]);
        lemma_escape_text_one(c);
        assert(t.subrange(0, m + 1 as int) =~= pre + seq![c]);
        let ec = escape_char(c);
        assert(escape_text(t) == escape_text(pre) + ec + escape_text(post));
        assert(forall|k: int|
            0 <= k < ec.len() ==> #[trigger] s[p + k] == s.subrange(j as int, (j + q.len()) as int)[1 + e
                + k]);
        assert(forall|k: int| 0 <= k < ec.len() ==> q[1 + e + k] == #[trigger] ec[k]);
        assert(readable_char(c));
        lemma_string_body_reads(s, j, t, m + 1);
        assert(pre.push(c) =~= t.subrange(0, m + 1 as int));
        if c == '"' || c == '\\' || c == '\n' || c == '\t' || c == '\r' {
            assert(s[p as int] == ec[0]);
            assert(s[p + 1 as int] == ec[1]);
            assert(unescape(s[p + 1 as int]) == Some(c));
        } else {
            assert(s[p as int] == ec[0]);
        }
    }
}

/// Lexing undoes escaping: a text `t` of readable characters, escaped and
/// quoted, lexes back to `t`, and the whole literal, closing quote included,
/// is consumed.
pub proof fn law_lex_quoted_string(s: Seq<char>, j: nat, t: Seq<char>)
    requires
        readable_text(t),
        j + quoted(t).len() <= s.len(),
        s.subrange(j as int, (j + quoted(t).len()) as int) == quoted(t),
    ensures
        string_at(s, j) == Ok::<(SpecToken, nat), Seq<char>>(
            (SpecToken::String(t), j + quoted(t).len()),
        ),
{
    lemma_string_body_reads(s, j, t, 0);
    assert(t.subrange(0, 0) =~= Seq::<char>::empty());
}

// ---------------------------------------------------------------------------
// Tokens
// ---------------------------------------------------------------------------

/// The source text of a token, as a program would spell it.
pub open spec fn token_text(t: SpecToken) -> Seq<char> {
    match t {
        SpecToken::Int(n) => int_text(n as int),
        SpecToken::Float(x) => x,
        SpecToken::String(x) => quoted(x),
        SpecToken::Bool(b) => bool_text(b),
        SpecToken::Symbol(x) => x,
        SpecToken::Keyword(k) => seq![':'] + k,
        SpecToken::Colon => seq![':'],
        SpecToken::LParen => seq!['('],
        SpecToken::RParen => seq![')'],
        SpecToken::LBrace => seq!['{'],
        SpecToken::RBrace => seq!['}'],
        SpecToken::LBracket => seq!['['],
        SpecToken::RBracket => seq![']'],
        SpecToken::Quote => seq!['\''],
        SpecToken::Quasiquote => seq!['`'],
        SpecToken::Unquote => seq![','],
        SpecToken::UnquoteSplice => seq![',', '@'],
    }
}

/// Tokens printed one after another, separated by single spaces.
pub open spec fn print_tokens(ts: Seq<SpecToken>) -> Seq<char>
    decreases ts.len(),
{
    if ts.len() == 0 {
        seq![]
    } else if ts.len() == 1 {
        token_text(ts[0])
    } else {
        token_text(ts[0]) + seq![' '] + print_tokens(ts.drop_first())
    }
}

/// A run of symbol characters that the lexer reads as one name: non-empty,
/// starting with a symbol start, and made of symbol characters.
pub open spec fn name_text(x: Seq<char>) -> bool {
    &&& x.len() > 0
    &&& symbol_start(x[0])
    &&& forall|i: int| 0 <= i < x.len() ==> #[trigger] symbol_char(x[i])
}

/// A token whose printed text lexes back to it: no float (its text is only
/// kept, not read), strings of readable characters, symbols that are names
/// other than `true` and `false` and do not read as a negative number, and
/// keywords whose key is a name.
pub open spec fn printable_token(t: SpecToken) -> bool {
    match t {
        SpecToken::Float(_) => false,
        SpecToken::String(x) => readable_text(x),
        SpecToken::Symbol(x) => name_text(x) && x != "true"@ && x != "false"@ && !(x[0] == '-'
            && x.len() > 1 && digit(x[1])),
        SpecToken::Keyword(k) => name_text(k),
        _ => true,
    }
}

proof fn lemma_symbol_end_run(s: Seq<char>, a: nat, b: nat)
    requires
        a <= b <= s.len(),
        forall|m: int| a <= m < b ==> #[trigger] symbol_char(s[m]),
        b == s.len() || !symbol_char(s[b as int]),
    ensures
        symbol_end(s, a) == b,
    decreases b - a,
{
    if a < b {
        lemma_symbol_end_run(s, a + 1, b);
    }
}

proof fn lemma_digits_end_run(s: Seq<char>, a: nat, b: nat)
    requires
        a <= b <= s.len(),
        forall|m: int| a <= m < b ==> #[trigger] digit(s[m]),
        b == s.len() || !digit(s[b as int]),
    ensures
        digits_end(s, a) == b,
    decreases b - a,
{
    if a < b {
        lemma_digits_end_run(s, a + 1, b);
    }
}

/// A printed token is not empty and starts with neither whitespace nor `;`.
proof fn lemma_token_text_start(t: SpecToken)
    requires
        printable_token(t),
    ensures
        token_text(t).len() > 0,
        !whitespace(token_text(t)[0]),
        token_text(t)[0] != ';',
{
    reveal_strlit("true");
    reveal_strlit("false");
    match t {
        SpecToken::Int(n) => {
            if n < 0 {
                lemma_nat_digits((-n) as nat);
            } else {
                lemma_nat_digits(n as nat);
                assert(digit(token_text(t)[0]));
            }
        },
        _ => {},
    }
}

/// The token printed at `j` in `s`, followed by a space or by the end of `s`,
/// lexes back to itself and ends where its text ends.
proof fn lemma_lex_printed_token(s: Seq<char>, j: nat, t: SpecToken)
    requires
        printable_token(t),
        j + token_text(t).len() <= s.len(),
        s.subrange(j as int, (j + token_text(t).len()) as int) == token_text(t),
        j + token_text(t).len() == s.len() || s[(j + token_text(t).len()) as int] == ' ',
    ensures
        lex_token(s, j) == Ok::<(SpecToken, nat), Seq<char>>((t, j + token_text(t).len())),
{
    let x = token_text(t);
    let e = j + x.len();
    lemma_token_text_start(t);
    assert forall|m: int| j <= m < e implies #[trigger] s[m] == x[m - j] by {
        assert(s[m] == s.subrange(j as int, e as int)[m - j]);
    }
    assert(s[j as int] == x[0]);
    assert(!symbol_char(' '));
    assert(!digit(' '));
    match t {
        SpecToken::String(body) => {
            law_lex_quoted_string(s, j, body);
        },
        SpecToken::Symbol(name) => {
            lemma_symbol_end_run(s, j, e);
            assert(s.subrange(j as int, symbol_end(s, j) as int) == name);
            if name.len() > 1 {
                assert(s[j + 1 as int] == name[1]);
            }
        },
        SpecToken::Keyword(k) => {
            assert forall|m: int| j + 1 <= m < e implies #[trigger] symbol_char(s[m]) by {
                assert(x[m - j] == k[m - j - 1]);
            }
            assert(s[j + 1 as int] == k[0]);
            lemma_symbol_end_run(s, j + 1, e);
            assert(s.subrange(j + 1 as int, e as int) =~= k);
        },
        SpecToken::Bool(b) => {
            reveal_strlit("true");
            reveal_strlit("false");
            assert(forall|m: int| 0 <= m < x.len() ==> #[trigger] letter(x[m]));
            lemma_symbol_end_run(s, j, e);
            assert(s.subrange(j as int, e as int) == x);
        },
        SpecToken::Int(n) => {
            if n < 0 {
                let ds = nat_digits((-n) as nat);
                lemma_nat_digits((-n) as nat);
                assert(x == seq!['-'] + ds);
                assert(forall|m: int| 1 <= m < x.len() ==> x[m] == #[trigger] ds[m - 1]);
                assert(digit(s[j + 1 as int]));
                assert forall|m: int| j + 1 <= m < e implies #[trigger] digit(s[m]) by {
                    assert(s[m] == ds[m - j - 1]);
                }
                lemma_digits_end_run(s, j + 1, e);
                assert(x.drop_first() =~= ds);
                assert(parse_int_text(x) == Some(n));
            } else {
                lemma_nat_digits(n as nat);
                assert forall|m: int| j <= m < e implies #[trigger] digit(s[m]) by {
                    assert(s[m] == x[m - j]);
                }
                lemma_digits_end_run(s, j, e);
                assert(parse_int_text(x) == Some(n));
            }
            assert(s.subrange(j as int, e as int) == x);
        },
        _ => {},
    }
}

proof fn lemma_lex_from_space(s: Seq<char>, i: nat, acc: Seq<SpecToken>)
    requires
        i < s.len(),
        whitespace(s[i as int]),
    ensures
        lex_from(s, i, acc) == lex_from(s, i + 1, acc),
{
    assert(skip_trivia(s, i) == skip_trivia(s, i + 1));
}

/// Lexing tokens printed after some text `pre`, from where `pre` ends.
proof fn lemma_lex_printed_tokens(pre: Seq<char>, ts: Seq<SpecToken>, acc: Seq<SpecToken>)
    requires
        ts.len() > 0,
        forall|i: int| 0 <= i < ts.len() ==> #[trigger] printable_token(ts[i]),
    ensures
        lex_from(pre + print_tokens(ts), pre.len(), acc) == Ok::<Seq<SpecToken>, Seq<char>>(
            acc + ts,
        ),
    decreases ts.len(),
{
    let t0 = ts[0];
    let x0 = token_text(t0);
    let s = pre + print_tokens(ts);
    let j = pre.len();
    let e = j + x0.len();
    assert(printable_token(t0));
    lemma_token_text_start(t0);
    if ts.len() == 1 {
        assert(s =~= pre + x0);
        assert(s.subrange(j as int, e as int) =~= x0);
        lemma_lex_printed_token(s, j, t0);
        assert(s[j as int] == x0[0]);
        assert(skip_trivia(s, j) == j);
        assert(skip_trivia(s, e) == e);
        assert(lex_from(s, j, acc) == lex_from(s, e, acc.push(t0)));
        assert(lex_from(s, e, acc.push(t0)) == Ok::<Seq<SpecToken>, Seq<char>>(acc.push(t0)));
        assert(acc.push(t0) =~= acc + ts);
    } else {
        let rest = ts.drop_first();
        let pre2 = pre + x0 + seq![' '];
        assert(s =~= pre2 + print_tokens(rest));
        assert(s.subrange(j as int, e as int) =~= x0);
        assert(s[e as int] == ' ');
        lemma_lex_printed_token(s, j, t0);
        assert(s[j as int] == x0[0]);
        assert(skip_trivia(s, j) == j);
        assert(lex_from(s, j, acc) == lex_from(s, e, acc.push(t0)));
        lemma_lex_from_space(s, e, acc.push(t0));
        assert(pre2.len() == e + 1);
        assert(forall|i: int| 0 <= i < rest.len() ==> rest[i] == ts[i + 1]);
        lemma_lex_printed_tokens(pre2, rest, acc.push(t0));
        assert(acc.push(t0) + rest =~= acc + ts);
    }
}

/// Lexing reads printed tokens back: tokens that can be printed, written
/// one after another with single spaces between them, lex to exactly those
/// tokens.
pub proof fn law_lex_printed_tokens(ts: Seq<SpecToken>)
    requires
        forall|i: int| 0 <= i < ts.len() ==> #[trigger] printable_token(ts[i]),
    ensures
        tokenize_spec(print_tokens(ts)) == Ok::<Seq<SpecToken>, Seq<char>>(ts),
{
    if ts.len() == 0 {
        assert(skip_trivia(Seq::<char>::empty(), 0) == 0);
        assert(Seq::<SpecToken>::empty() =~= ts);
    } else {
        lemma_lex_printed_tokens(Seq::<char>::empty(), ts, Seq::<SpecToken>::empty());
        assert(Seq::<char>::empty() + print_tokens(ts) =~= print_tokens(ts));
        assert(Seq::<SpecToken>::empty() + ts =~= ts);
    }
}

} // verus!
