//! Serializing values to JSON, YAML and TOML text.
//!
//! Only data values (numbers, strings, booleans, lists, records) can be
//! serialized: a value that holds a closure anywhere is refused, matching the
//! rule that functions never appear in output. Each format is given by a spec
//! function over the value's model ([`json`], [`yaml_lines`], [`toml_doc`]).

use vstd::prelude::*;
use crate::text::{digit_char, str_eq, int_text, int_to_string, push_string, push_char, chars_of};
use crate::value::{
    SpecValue, Value, strings_view, values_view, vfields_view, lemma_values_view,
    lemma_vfields_view,
};

verus! {

// ---------------------------------------------------------------------------
// Texts of scalars
// ---------------------------------------------------------------------------

/// How one character is written inside a quoted string: `"`, `\\`, newline,
/// tab and carriage return by their backslash escapes, every other control
/// character below U+0020, and DEL (U+007F), as `\u00XX` (lower-case hex),
/// the rest as itself. The result is valid inside a JSON, YAML or TOML
/// double-quoted string.
pub open spec fn escape_char(c: char) -> Seq<char> {
    if c == '"' {
        seq!['\\', '"']
    } else if c == '\\' {
        seq!['\\', '\\']
    } else if c == '\n' {
        seq!['\\', 'n']
    } else if c == '\t' {
        seq!['\\', 't']
    } else if c == '\r' {
        seq!['\\', 'r']
    } else if ' ' > c || c == '\x7f' {
        seq!['\\', 'u', '0', '0', hex_char((c as nat) / 16), hex_char((c as nat) % 16)]
    } else {
        seq![c]
    }
}

/// The lower-case hexadecimal digit of `d` (for `d < 16`).
pub open spec fn hex_char(d: nat) -> char {
    if d < 10 {
        digit_char(d)
    } else {
        ((d + 87) as u8) as char
    }
}

/// A text with its special characters escaped.
pub open spec fn escape_text(s: Seq<char>) -> Seq<char>
    decreases s.len(),
{
    if s.len() == 0 {
        seq![]
    } else {
        escape_text(s.drop_last()) + escape_char(s.last())
    }
}

proof fn lemma_escape_char_plain(c: char)
    ensures
        forall|i: int|
            0 <= i < escape_char(c).len() ==> !(' ' > #[trigger] escape_char(c)[i])
                && escape_char(c)[i] != '\x7f',
{
    if ' ' > c || c == '\x7f' {
        let hi = (c as nat) / 16;
        let lo = (c as nat) % 16;
        assert(hi < 16 && lo < 16);
        assert(!(' ' > hex_char(hi)) && hex_char(hi) != '\x7f');
        assert(!(' ' > hex_char(lo)) && hex_char(lo) != '\x7f');
    }
}

/// Escaped text holds no control character: every character below U+0020,
/// and DEL, is written as an escape made of printable characters.
pub proof fn law_escape_has_no_control_chars(s: Seq<char>)
    ensures
        forall|i: int|
            0 <= i < escape_text(s).len() ==> !(' ' > #[trigger] escape_text(s)[i])
                && escape_text(s)[i] != '\x7f',
    decreases s.len(),
{
    if s.len() > 0 {
        law_escape_has_no_control_chars(s.drop_last());
        lemma_escape_char_plain(s.last());
        let a = escape_text(s.drop_last());
        let b = escape_char(s.last());
        assert(escape_text(s) == a + b);
        assert forall|i: int| 0 <= i < escape_text(s).len() implies !(' ' > #[trigger] escape_text(
            s,
        )[i]) && escape_text(s)[i] != '\x7f' by {
            if i < a.len() {
                assert(escape_text(s)[i] == a[i]);
            } else {
                assert(escape_text(s)[i] == b[i - a.len()]);
            }
        }
    }
}

/// A text in double quotes, escaped.
pub open spec fn quoted(s: Seq<char>) -> Seq<char> {
    seq!['"'] + escape_text(s) + seq!['"']
}

pub open spec fn bool_text(b: bool) -> Seq<char> {
    if b {
        "true"@
    } else {
        "false"@
    }
}

/// The text of a scalar value (the same in every format).
pub open spec fn scalar_text(v: SpecValue) -> Seq<char> {
    match v {
        SpecValue::Int(n) => int_text(n as int),
        SpecValue::Float(t) => t,
        SpecValue::Bool(b) => bool_text(b),
        SpecValue::String(s) => quoted(s),
        _ => seq![],
    }
}

/// The parts joined by the separator.
pub open spec fn join(parts: Seq<Seq<char>>, sep: Seq<char>) -> Seq<char>
    decreases parts.len(),
{
    if parts.len() == 0 {
        seq![]
    } else if parts.len() == 1 {
        parts[0]
    } else {
        join(parts.drop_last(), sep) + sep + parts.last()
    }
}

// ---------------------------------------------------------------------------
// Closures
// ---------------------------------------------------------------------------

/// Whether a closure occurs anywhere in the value.
pub open spec fn has_closure(v: SpecValue) -> bool
    decreases v,
{
    match v {
        SpecValue::List(items) => items_have_closure(items),
        SpecValue::Record(fields) => fields_have_closure(fields),
        SpecValue::Closure { .. } => true,
        _ => false,
    }
}

pub open spec fn items_have_closure(s: Seq<SpecValue>) -> bool
    decreases s,
{
    if s.len() == 0 {
        false
    } else {
        items_have_closure(s.subrange(0, s.len() - 1)) || has_closure(s[s.len() - 1])
    }
}

pub open spec fn fields_have_closure(s: Seq<(Seq<char>, SpecValue)>) -> bool
    decreases s,
{
    if s.len() == 0 {
        false
    } else {
        fields_have_closure(s.subrange(0, s.len() - 1)) || has_closure(s[s.len() - 1].1)
    }
}

proof fn lemma_items_closure_step(s: Seq<SpecValue>, i: int)
    requires
        0 <= i < s.len(),
    ensures
        items_have_closure(s.subrange(0, i + 1)) == (items_have_closure(s.subrange(0, i))
            || has_closure(s[i])),
{
    assert(s.subrange(0, i + 1).subrange(0, i) =~= s.subrange(0, i));
}

proof fn lemma_fields_closure_step(s: Seq<(Seq<char>, SpecValue)>, i: int)
    requires
        0 <= i < s.len(),
    ensures
        fields_have_closure(s.subrange(0, i + 1)) == (fields_have_closure(s.subrange(0, i))
            || has_closure(s[i].1)),
{
    assert(s.subrange(0, i + 1).subrange(0, i) =~= s.subrange(0, i));
}

/// A closure in a prefix is a closure in the whole sequence.
proof fn lemma_items_closure_prefix(s: Seq<SpecValue>, i: int)
    requires
        0 <= i <= s.len(),
        items_have_closure(s.subrange(0, i)),
    ensures
        items_have_closure(s),
    decreases s.len() - i,
{
    if i < s.len() {
        lemma_items_closure_step(s, i);
        lemma_items_closure_prefix(s, i + 1);
    } else {
        assert(s.subrange(0, i) =~= s);
    }
}

proof fn lemma_fields_closure_prefix(s: Seq<(Seq<char>, SpecValue)>, i: int)
    requires
        0 <= i <= s.len(),
        fields_have_closure(s.subrange(0, i)),
    ensures
        fields_have_closure(s),
    decreases s.len() - i,
{
    if i < s.len() {
        lemma_fields_closure_step(s, i);
        lemma_fields_closure_prefix(s, i + 1);
    } else {
        assert(s.subrange(0, i) =~= s);
    }
}

// ---------------------------------------------------------------------------
// JSON
// ---------------------------------------------------------------------------

/// The JSON text of a value without closures.
pub open spec fn json(v: SpecValue) -> Seq<char>
    decreases v,
{
    match v {
        SpecValue::List(items) => "["@ + join(json_parts(items), ", "@) + "]"@,
        SpecValue::Record(fields) => "{"@ + join(json_field_parts(fields), ", "@) + "}"@,
        _ => scalar_text(v),
    }
}

pub open spec fn json_parts(s: Seq<SpecValue>) -> Seq<Seq<char>>
    decreases s,
{
    if s.len() == 0 {
        seq![]
    } else {
        json_parts(s.subrange(0, s.len() - 1)).push(json(s[s.len() - 1]))
    }
}

/// `"key": value` for each field.
pub open spec fn json_field_parts(s: Seq<(Seq<char>, SpecValue)>) -> Seq<Seq<char>>
    decreases s,
{
    if s.len() == 0 {
        seq![]
    } else {
        json_field_parts(s.subrange(0, s.len() - 1)).push(
            quoted(s[s.len() - 1].0) + ": "@ + json(s[s.len() - 1].1),
        )
    }
}

pub open spec fn json_fn_msg() -> Seq<char> {
    "cannot serialize a function to JSON"@
}

/// What [`Value::to_json`] gives for a value.
pub open spec fn json_result(v: SpecValue) -> Result<Seq<char>, Seq<char>> {
    if has_closure(v) {
        Err(json_fn_msg())
    } else {
        Ok(json(v))
    }
}

proof fn lemma_json_parts(s: Seq<SpecValue>)
    ensures
        json_parts(s).len() == s.len(),
        forall|i: int| 0 <= i < s.len() ==> #[trigger] json_parts(s)[i] == json(s[i]),
    decreases s.len(),
{
    if s.len() > 0 {
        lemma_json_parts(s.subrange(0, s.len() - 1));
    }
}

proof fn lemma_json_field_parts(s: Seq<(Seq<char>, SpecValue)>)
    ensures
        json_field_parts(s).len() == s.len(),
        forall|i: int|
            0 <= i < s.len() ==> #[trigger] json_field_parts(s)[i] == quoted(s[i].0) + ": "@
                + json(s[i].1),
    decreases s.len(),
{
    if s.len() > 0 {
        lemma_json_field_parts(s.subrange(0, s.len() - 1));
    }
}

// ---------------------------------------------------------------------------
// YAML
// ---------------------------------------------------------------------------

/// Whether a value is a collection (list or record), i.e. not a scalar.
pub open spec fn container(v: SpecValue) -> bool {
    v is List || v is Record
}

/// The lines indented by two spaces.
pub open spec fn indent(ls: Seq<Seq<char>>) -> Seq<Seq<char>> {
    ls.map_values(|l: Seq<char>| "  "@ + l)
}

/// The block-style YAML lines of a value without closures. Each line carries
/// no indentation relative to its parent; a nested block is indented by its
/// parent.
pub open spec fn yaml_lines(v: SpecValue) -> Seq<Seq<char>>
    decreases v,
{
    match v {
        SpecValue::List(items) => if items.len() == 0 {
            seq!["[]"@]
        } else {
            yaml_item_lines(items)
        },
        SpecValue::Record(fields) => if fields.len() == 0 {
            seq!["{}"@]
        } else {
            yaml_field_lines(fields)
        },
        _ => seq![scalar_text(v)],
    }
}

/// A list item: `- ` before its first line, the other lines indented.
pub open spec fn item_block(sub: Seq<Seq<char>>) -> Seq<Seq<char>> {
    seq!["- "@ + sub[0]] + indent(sub.drop_first())
}

/// A record field: `key: scalar` on one line, or `key:` over the indented
/// block of a nested collection.
pub open spec fn field_block(key: Seq<char>, v: SpecValue, sub: Seq<Seq<char>>) -> Seq<Seq<char>> {
    if container(v) {
        seq![key + ":"@] + indent(sub)
    } else {
        seq![key + ": "@ + sub[0]]
    }
}

pub open spec fn yaml_item_lines(s: Seq<SpecValue>) -> Seq<Seq<char>>
    decreases s,
{
    if s.len() == 0 {
        seq![]
    } else {
        yaml_item_lines(s.subrange(0, s.len() - 1)) + item_block(yaml_lines(s[s.len() - 1]))
    }
}

pub open spec fn yaml_field_lines(s: Seq<(Seq<char>, SpecValue)>) -> Seq<Seq<char>>
    decreases s,
{
    if s.len() == 0 {
        seq![]
    } else {
        yaml_field_lines(s.subrange(0, s.len() - 1)) + field_block(
            s[s.len() - 1].0,
            s[s.len() - 1].1,
            yaml_lines(s[s.len() - 1].1),
        )
    }
}

pub open spec fn yaml_fn_msg() -> Seq<char> {
    "cannot serialize a function to YAML"@
}

/// What [`Value::to_yaml`] gives for a value.
pub open spec fn yaml_result(v: SpecValue) -> Result<Seq<char>, Seq<char>> {
    if has_closure(v) {
        Err(yaml_fn_msg())
    } else {
        Ok(join(yaml_lines(v), "\n"@))
    }
}

/// Every value has at least one YAML line.
pub proof fn lemma_yaml_lines_nonempty(v: SpecValue)
    ensures
        yaml_lines(v).len() >= 1,
    decreases v,
{
    match v {
        SpecValue::List(items) => {
            if items.len() > 0 {
                lemma_yaml_item_lines_len(items);
            }
        },
        SpecValue::Record(fields) => {
            if fields.len() > 0 {
                lemma_yaml_field_lines_len(fields);
            }
        },
        _ => {},
    }
}

proof fn lemma_yaml_item_lines_len(s: Seq<SpecValue>)
    requires
        s.len() > 0,
    ensures
        yaml_item_lines(s).len() >= 1,
    decreases s, 0nat,
{
    lemma_yaml_lines_nonempty(s[s.len() - 1]);
}

proof fn lemma_yaml_field_lines_len(s: Seq<(Seq<char>, SpecValue)>)
    requires
        s.len() > 0,
    ensures
        yaml_field_lines(s).len() >= 1,
    decreases s, 0nat,
{
    lemma_yaml_lines_nonempty(s[s.len() - 1].1);
}

// ---------------------------------------------------------------------------
// TOML
// ---------------------------------------------------------------------------

/// The inline TOML text of a value without closures (used inside tables and
/// arrays).
pub open spec fn toml_value(v: SpecValue) -> Seq<char>
    decreases v,
{
    match v {
        SpecValue::List(items) => "["@ + join(toml_parts(items), ", "@) + "]"@,
        SpecValue::Record(fields) => "{ "@ + join(toml_field_parts(fields), ", "@) + " }"@,
        _ => scalar_text(v),
    }
}

pub open spec fn toml_parts(s: Seq<SpecValue>) -> Seq<Seq<char>>
    decreases s,
{
    if s.len() == 0 {
        seq![]
    } else {
        toml_parts(s.subrange(0, s.len() - 1)).push(toml_value(s[s.len() - 1]))
    }
}

/// A character that may stand in a bare TOML key: `A-Z a-z 0-9 _ -`.
pub open spec fn bare_key_char(c: char) -> bool {
    ('A' <= c && c <= 'Z') || ('a' <= c && c <= 'z') || ('0' <= c && c <= '9') || c == '_'
        || c == '-'
}

/// Whether a record key can be written bare in TOML: non-empty, and made of
/// bare-key characters only.
pub open spec fn bare_key(k: Seq<char>) -> bool {
    k.len() > 0 && forall|i: int| 0 <= i < k.len() ==> #[trigger] bare_key_char(k[i])
}

/// How a record key is written in TOML: bare where TOML allows it, otherwise
/// as a quoted key (so `a.b` is written `"a.b"`, one key, not a dotted path).
pub open spec fn toml_key(k: Seq<char>) -> Seq<char> {
    if bare_key(k) {
        k
    } else {
        quoted(k)
    }
}

/// `key = value` for each field.
pub open spec fn toml_field_parts(s: Seq<(Seq<char>, SpecValue)>) -> Seq<Seq<char>>
    decreases s,
{
    if s.len() == 0 {
        seq![]
    } else {
        toml_field_parts(s.subrange(0, s.len() - 1)).push(
            toml_key(s[s.len() - 1].0) + " = "@ + toml_value(s[s.len() - 1].1),
        )
    }
}

pub open spec fn toml_fn_msg() -> Seq<char> {
    "cannot serialize a function to TOML"@
}

pub open spec fn toml_top_msg() -> Seq<char> {
    "TOML output requires a top-level record (mapping)"@
}

/// What [`Value::to_toml`] gives for a value: a document of `key = value`
/// lines for a record without closures, an error otherwise.
pub open spec fn toml_doc(v: SpecValue) -> Result<Seq<char>, Seq<char>> {
    match v {
        SpecValue::Record(fields) => if fields_have_closure(fields) {
            Err(toml_fn_msg())
        } else {
            Ok(join(toml_field_parts(fields), "\n"@))
        },
        SpecValue::Closure { .. } => Err(toml_fn_msg()),
        _ => Err(toml_top_msg()),
    }
}

/// What the inline TOML serializer gives for a value.
pub open spec fn toml_value_result(v: SpecValue) -> Result<Seq<char>, Seq<char>> {
    if has_closure(v) {
        Err(toml_fn_msg())
    } else {
        Ok(toml_value(v))
    }
}

proof fn lemma_toml_parts(s: Seq<SpecValue>)
    ensures
        toml_parts(s).len() == s.len(),
        forall|i: int| 0 <= i < s.len() ==> #[trigger] toml_parts(s)[i] == toml_value(s[i]),
    decreases s.len(),
{
    if s.len() > 0 {
        lemma_toml_parts(s.subrange(0, s.len() - 1));
    }
}

proof fn lemma_toml_field_parts(s: Seq<(Seq<char>, SpecValue)>)
    ensures
        toml_field_parts(s).len() == s.len(),
        forall|i: int|
            0 <= i < s.len() ==> #[trigger] toml_field_parts(s)[i] == toml_key(s[i].0) + " = "@
                + toml_value(s[i].1),
    decreases s.len(),
{
    if s.len() > 0 {
        lemma_toml_field_parts(s.subrange(0, s.len() - 1));
    }
}

// ---------------------------------------------------------------------------
// The formats agree on scalars
// ---------------------------------------------------------------------------

/// A number, a string or a boolean.
pub open spec fn scalar(v: SpecValue) -> bool {
    v is Int || v is Float || v is Bool || v is String
}

/// The lines `key: value` that YAML writes for fields holding scalars, the
/// value in its JSON text.
pub open spec fn yaml_scalar_field_lines(fs: Seq<(Seq<char>, SpecValue)>) -> Seq<Seq<char>> {
    Seq::new(fs.len(), |i: int| fs[i].0 + ": "@ + json(fs[i].1))
}

/// The lines `key = value` that TOML writes for fields holding scalars, the
/// value in its JSON text.
pub open spec fn toml_scalar_field_lines(fs: Seq<(Seq<char>, SpecValue)>) -> Seq<Seq<char>> {
    Seq::new(fs.len(), |i: int| toml_key(fs[i].0) + " = "@ + json(fs[i].1))
}

proof fn lemma_scalar_fields_no_closure(fs: Seq<(Seq<char>, SpecValue)>)
    requires
        forall|i: int| 0 <= i < fs.len() ==> #[trigger] scalar(fs[i].1),
    ensures
        !fields_have_closure(fs),
    decreases fs.len(),
{
    if fs.len() > 0 {
        let pre = fs.subrange(0, fs.len() - 1);
        assert forall|i: int| 0 <= i < pre.len() implies #[trigger] scalar(pre[i].1) by {
            assert(pre[i] == fs[i]);
        }
        lemma_scalar_fields_no_closure(pre);
        assert(scalar(fs[fs.len() - 1].1));
        assert(!has_closure(fs[fs.len() - 1].1));
    }
}

proof fn lemma_yaml_scalar_field_lines(fs: Seq<(Seq<char>, SpecValue)>)
    requires
        forall|i: int| 0 <= i < fs.len() ==> #[trigger] scalar(fs[i].1),
    ensures
        yaml_field_lines(fs) == yaml_scalar_field_lines(fs),
    decreases fs.len(),
{
    if fs.len() > 0 {
        let pre = fs.subrange(0, fs.len() - 1);
        assert forall|i: int| 0 <= i < pre.len() implies #[trigger] scalar(pre[i].1) by {
            assert(pre[i] == fs[i]);
        }
        lemma_yaml_scalar_field_lines(pre);
        let last = fs[fs.len() - 1];
        assert(scalar(last.1));
        assert(!container(last.1));
        assert(yaml_lines(last.1) == seq![scalar_text(last.1)]);
        assert(yaml_field_lines(fs) =~= yaml_scalar_field_lines(fs));
    }
}

/// YAML writes a number, a string or a boolean exactly as JSON does: a
/// boolean as bare `true`/`false`, a string quoted.
pub proof fn law_yaml_scalar_as_json(v: SpecValue)
    requires
        scalar(v),
    ensures
        yaml_result(v) == json_result(v),
{
    assert(yaml_lines(v) == seq![scalar_text(v)]);
}

/// A record of scalars is written in YAML one field per line, as `key: ` and
/// the value's JSON text (so a boolean is never quoted).
pub proof fn law_yaml_scalar_record(fs: Seq<(Seq<char>, SpecValue)>)
    requires
        fs.len() > 0,
        forall|i: int| 0 <= i < fs.len() ==> #[trigger] scalar(fs[i].1),
    ensures
        yaml_result(SpecValue::Record(fs)) == Ok::<Seq<char>, Seq<char>>(
            join(yaml_scalar_field_lines(fs), "\n"@),
        ),
{
    lemma_scalar_fields_no_closure(fs);
    lemma_yaml_scalar_field_lines(fs);
}

/// A boolean field is written in YAML as `key: true` or `key: false`.
pub proof fn law_yaml_bool_field(k: Seq<char>, b: bool)
    ensures
        yaml_result(SpecValue::Record(seq![(k, SpecValue::Bool(b))])) == Ok::<Seq<char>, Seq<char>>(
            k + ": "@ + bool_text(b),
        ),
{
    let fs = seq![(k, SpecValue::Bool(b))];
    law_yaml_scalar_record(fs);
    assert(yaml_scalar_field_lines(fs) =~= seq![k + ": "@ + bool_text(b)]);
}

/// A record of scalars is a TOML document of one `key = value` line per
/// field, the value in its JSON text (so a number is never quoted).
pub proof fn law_toml_scalar_record(fs: Seq<(Seq<char>, SpecValue)>)
    requires
        forall|i: int| 0 <= i < fs.len() ==> #[trigger] scalar(fs[i].1),
    ensures
        toml_doc(SpecValue::Record(fs)) == Ok::<Seq<char>, Seq<char>>(
            join(toml_scalar_field_lines(fs), "\n"@),
        ),
{
    lemma_scalar_fields_no_closure(fs);
    lemma_toml_field_parts(fs);
    assert forall|i: int| 0 <= i < fs.len() implies toml_value(fs[i].1) == json(fs[i].1) by {
        assert(scalar(fs[i].1));
    }
    assert(toml_field_parts(fs) =~= toml_scalar_field_lines(fs));
}

/// A float field is written in TOML as `key = ` and the float's text,
/// unquoted.
pub proof fn law_toml_float_field(k: Seq<char>, t: Seq<char>)
    ensures
        toml_doc(SpecValue::Record(seq![(k, SpecValue::Float(t))])) == Ok::<Seq<char>, Seq<char>>(
            toml_key(k) + " = "@ + t,
        ),
{
    let fs = seq![(k, SpecValue::Float(t))];
    law_toml_scalar_record(fs);
    assert(toml_scalar_field_lines(fs) =~= seq![toml_key(k) + " = "@ + t]);
}

// ---------------------------------------------------------------------------
// Executable serializers
// ---------------------------------------------------------------------------

/// The code of a control character below U+0020.
fn control_code(c: char) -> (n: u32)
    requires
        ' ' > c,
    ensures
        n < 32,
        n as nat == c as nat,
{
    let mut d: u8 = 0;
    while d < 32
        invariant
            d <= 32,
            ' ' > c,
            d <= (c as int),
        decreases 32 - d,
    {
        if (d as char) == c {
            return d as u32;
        }
        d = d + 1;
    }
    0
}

/// The lower-case hexadecimal digit of `d`.
fn hex_digit(d: u32) -> (c: char)
    requires
        d < 16,
    ensures
        c == hex_char(d as nat),
{
    if d < 10 {
        ((d as u8) + 48u8) as char
    } else {
        ((d as u8) + 87u8) as char
    }
}

/// Escapes special characters in a string for output.
pub fn escape(s: &str) -> (r: String)
    ensures
        r@ == escape_text(s@),
{
    let cs = chars_of(s);
    let mut out = String::new();
    let mut i: usize = 0;
    while i < cs.len()
        invariant
            cs@ == s@,
            i <= cs@.len(),
            out@ == escape_text(cs@.subrange(0, i as int)),
        decreases cs.len() - i,
    {
        let c = cs[i];
        let ghost before = out@;
        if c == '"' {
            push_char(&mut out, '\\');
            push_char(&mut out, '"');
        } else if c == '\\' {
            push_char(&mut out, '\\');
            push_char(&mut out, '\\');
        } else if c == '\n' {
            push_char(&mut out, '\\');
            push_char(&mut out, 'n');
        } else if c == '\t' {
            push_char(&mut out, '\\');
            push_char(&mut out, 't');
        } else if c == '\r' {
            push_char(&mut out, '\\');
            push_char(&mut out, 'r');
        } else if ' ' > c || c == '\x7f' {
            let n: u32 = if c == '\x7f' {
                127
            } else {
                control_code(c)
            };
            push_char(&mut out, '\\');
            push_char(&mut out, 'u');
            push_char(&mut out, '0');
            push_char(&mut out, '0');
            push_char(&mut out, hex_digit(n / 16));
            push_char(&mut out, hex_digit(n % 16));
        } else {
            push_char(&mut out, c);
        }
        assert(cs@.subrange(0, i + 1).drop_last() =~= cs@.subrange(0, i as int));
        assert(out@ =~= before + escape_char(c));
        i = i + 1;
    }
    assert(cs@.subrange(0, cs@.len() as int) =~= cs@);
    out
}

/// The parts joined by the separator.
pub fn join_strings(parts: &Vec<String>, sep: &str) -> (r: String)
    ensures
        r@ == join(strings_view(parts@), sep@),
{
    let ghost ps = strings_view(parts@);
    let mut out = String::new();
    let mut i: usize = 0;
    while i < parts.len()
        invariant
            ps == strings_view(parts@),
            i <= parts@.len(),
            out@ == join(ps.subrange(0, i as int), sep@),
        decreases parts.len() - i,
    {
        let ghost before = out@;
        if i > 0 {
            out.append(sep);
        }
        push_string(&mut out, &parts[i]);
        assert(ps.subrange(0, i + 1).drop_last() =~= ps.subrange(0, i as int));
        assert(ps.subrange(0, i + 1).last() == parts@[i as int]@);
        if i == 0 {
            assert(out@ =~= join(ps.subrange(0, 1), sep@));
        } else {
            assert(out@ =~= before + sep@ + parts@[i as int]@);
        }
        i = i + 1;
    }
    assert(ps.subrange(0, parts@.len() as int) =~= ps);
    out
}

/// The text of a scalar value.
fn scalar_string(v: &Value) -> (r: String)
    requires
        !(v@ is List || v@ is Record || v@ is Closure),
    ensures
        r@ == scalar_text(v@),
{
    match v {
        Value::Int(n) => int_to_string(*n),
        Value::Float(t) => t.clone(),
        Value::Bool(b) => if *b {
            String::from_str("true")
        } else {
            String::from_str("false")
        },
        Value::String(s) => {
            let mut out = String::new();
            push_char(&mut out, '"');
            let e = escape(s.as_str());
            push_string(&mut out, &e);
            push_char(&mut out, '"');
            assert(out@ =~= quoted(s@));
            out
        },
        _ => String::new(),
    }
}

/// `text` wrapped between `open` and `close`.
fn wrap(open: &str, text: String, close: &str) -> (r: String)
    ensures
        r@ == open@ + text@ + close@,
{
    let mut out = String::from_str(open);
    push_string(&mut out, &text);
    out.append(close);
    out
}

/// Whether a value is a collection (list or record), i.e. not a scalar.
fn is_container(v: &Value) -> (b: bool)
    ensures
        b == container(v@),
{
    match v {
        Value::List(_) => true,
        Value::Record(_) => true,
        _ => false,
    }
}

/// The JSON text of a list of values.
fn json_list(items: &Vec<Value>) -> (r: Result<String, String>)
    ensures
        (match r {
            Ok(s) => Ok(s@),
            Err(e) => Err(e@),
        }) == json_result(SpecValue::List(values_view(items@))),
    decreases items,
{
    let ghost m = values_view(items@);
    proof {
        lemma_values_view(items@);
    }
    let mut parts: Vec<String> = Vec::new();
    let mut i: usize = 0;
    while i < items.len()
        invariant
            m == values_view(items@),
            m.len() == items@.len(),
            forall|k: int| 0 <= k < m.len() ==> #[trigger] m[k] == items@[k]@,
            i <= items@.len(),
            parts@.len() == i,
            forall|k: int| 0 <= k < i ==> #[trigger] parts@[k]@ == json(m[k]),
            !items_have_closure(m.subrange(0, i as int)),
        decreases items.len() - i,
    {
        proof {
            lemma_items_closure_step(m, i as int);
        }
        match items[i].to_json() {
            Ok(p) => {
                parts.push(p);
            },
            Err(e) => {
                proof {
                    lemma_items_closure_prefix(m, i + 1);
                }
                return Err(e);
            },
        }
        i = i + 1;
    }
    proof {
        assert(m.subrange(0, m.len() as int) =~= m);
        lemma_json_parts(m);
        assert(strings_view(parts@) =~= json_parts(m));
    }
    let body = join_strings(&parts, ", ");
    Ok(wrap("[", body, "]"))

}

/// The JSON text of a record.
fn json_record(fields: &Vec<(String, Value)>) -> (r: Result<String, String>)
    ensures
        (match r {
            Ok(s) => Ok(s@),
            Err(e) => Err(e@),
        }) == json_result(SpecValue::Record(vfields_view(fields@))),
    decreases fields,
{
    let ghost m = vfields_view(fields@);
    proof {
        lemma_vfields_view(fields@);
    }
    let mut parts: Vec<String> = Vec::new();
    let mut i: usize = 0;
    while i < fields.len()
        invariant
            m == vfields_view(fields@),
            m.len() == fields@.len(),
            forall|k: int|
                0 <= k < m.len() ==> #[trigger] m[k] == (
                    fields@[k].0@,
                    fields@[k].1@,
                ),
            i <= fields@.len(),
            parts@.len() == i,
            forall|k: int|
                0 <= k < i ==> #[trigger] parts@[k]@ == quoted(m[k].0) + ": "@ + json(
                    m[k].1,
                ),
            !fields_have_closure(m.subrange(0, i as int)),
        decreases fields.len() - i,
    {
        proof {
            lemma_fields_closure_step(m, i as int);
            assert(decreases_to!(fields => fields@[i as int].1));
        }
        match fields[i].1.to_json() {
            Ok(p) => {
                let mut part = String::new();
                push_char(&mut part, '"');
                let e = escape(fields[i].0.as_str());
                push_string(&mut part, &e);
                push_char(&mut part, '"');
                part.append(": ");
                push_string(&mut part, &p);
                assert(part@ =~= quoted(m[i as int].0) + ": "@ + json(m[i as int].1));
                parts.push(part);
            },
            Err(e) => {
                proof {
                    lemma_fields_closure_prefix(m, i + 1);
                }
                return Err(e);
            },
        }
        i = i + 1;
    }
    proof {
        assert(m.subrange(0, m.len() as int) =~= m);
        lemma_json_field_parts(m);
        assert(strings_view(parts@) =~= json_field_parts(m));
    }
    let body = join_strings(&parts, ", ");
    Ok(wrap("{", body, "}"))

}

proof fn lemma_strings_view_push(s: Seq<String>, x: String)
    ensures
        strings_view(s.push(x)) == strings_view(s).push(x@),
{
    assert(strings_view(s.push(x)) =~= strings_view(s).push(x@));
}

/// `prefix` followed by `text`.
fn prefixed(prefix: &str, text: &String) -> (r: String)
    ensures
        r@ == prefix@ + text@,
{
    let mut out = String::from_str(prefix);
    push_string(&mut out, text);
    out
}

/// The YAML lines of a value.
fn yaml_value_lines(v: &Value) -> (r: Result<Vec<String>, String>)
    ensures
        match r {
            Ok(ls) => !has_closure(v@) && strings_view(ls@) == yaml_lines(v@),
            Err(e) => has_closure(v@) && e@ == yaml_fn_msg(),
        },
    decreases v,
{
    match v {
        Value::List(items) => {
            if items.len() == 0 {
                let mut ls: Vec<String> = Vec::new();
                ls.push(String::from_str("[]"));
                assert(strings_view(ls@) =~= seq!["[]"@]);
                proof {
                    lemma_values_view(items@);
                    assert(values_view(items@).subrange(0, 0) =~= values_view(items@));
                }
                Ok(ls)
            } else {
                yaml_list(items)
            }
        },
        Value::Record(fields) => {
            if fields.len() == 0 {
                let mut ls: Vec<String> = Vec::new();
                ls.push(String::from_str("{}"));
                assert(strings_view(ls@) =~= seq!["{}"@]);
                proof {
                    lemma_vfields_view(fields@);
                    assert(vfields_view(fields@).subrange(0, 0) =~= vfields_view(fields@));
                }
                Ok(ls)
            } else {
                yaml_record(fields)
            }
        },
        Value::Closure(_) => Err(String::from_str("cannot serialize a function to YAML")),
        _ => {
            let mut ls: Vec<String> = Vec::new();
            ls.push(scalar_string(v));
            assert(strings_view(ls@) =~= seq![scalar_text(v@)]);
            Ok(ls)
        },
    }
}

/// Appends the lines of `sub` from index `from` on, each indented by two spaces.
fn push_indented(lines: &mut Vec<String>, sub: &Vec<String>, from: usize)
    requires
        from <= sub@.len(),
    ensures
        strings_view(final(lines)@) == strings_view(old(lines)@) + indent(
            strings_view(sub@).subrange(from as int, sub@.len() as int),
        ),
{
    let ghost base = strings_view(lines@);
    let ghost sv = strings_view(sub@);
    let mut j = from;
    while j < sub.len()
        invariant
            sv == strings_view(sub@),
            from <= j <= sub@.len(),
            strings_view(lines@) == base + indent(sv.subrange(from as int, j as int)),
        decreases sub.len() - j,
    {
        let l = prefixed("  ", &sub[j]);
        proof {
            lemma_strings_view_push(lines@, l);
            assert(indent(sv.subrange(from as int, j + 1)) =~= indent(
                sv.subrange(from as int, j as int),
            ).push("  "@ + sv[j as int]));
        }
        lines.push(l);
        j = j + 1;
    }
}

/// The YAML lines of a non-empty list.
fn yaml_list(items: &Vec<Value>) -> (r: Result<Vec<String>, String>)
    requires
        items@.len() > 0,
    ensures
        match r {
            Ok(ls) => !items_have_closure(values_view(items@)) && strings_view(ls@)
                == yaml_item_lines(values_view(items@)),
            Err(e) => items_have_closure(values_view(items@)) && e@ == yaml_fn_msg(),
        },
    decreases items,
{
    let ghost m = values_view(items@);
    proof {
        lemma_values_view(items@);
    }
    let mut lines: Vec<String> = Vec::new();
    let mut i: usize = 0;
    assert(strings_view(lines@) =~= yaml_item_lines(m.subrange(0, 0)));
    while i < items.len()
        invariant
            m == values_view(items@),
            m.len() == items@.len(),
            forall|k: int| 0 <= k < m.len() ==> #[trigger] m[k] == items@[k]@,
            i <= items@.len(),
            strings_view(lines@) == yaml_item_lines(m.subrange(0, i as int)),
            !items_have_closure(m.subrange(0, i as int)),
        decreases items.len() - i,
    {
        proof {
            lemma_items_closure_step(m, i as int);
        }
        match yaml_value_lines(&items[i]) {
            Ok(sub) => {
                let ghost sv = strings_view(sub@);
                proof {
                    lemma_yaml_lines_nonempty(m[i as int]);
                    assert(m.subrange(0, i + 1).subrange(0, i as int) =~= m.subrange(0, i as int));
                }
                let ghost base = strings_view(lines@);
                let first = prefixed("- ", &sub[0]);
                proof {
                    lemma_strings_view_push(lines@, first);
                }
                lines.push(first);
                push_indented(&mut lines, &sub, 1);
                assert(sv.drop_first() =~= sv.subrange(1, sv.len() as int));
                assert(strings_view(lines@) =~= base + item_block(sv));
            },
            Err(e) => {
                proof {
                    lemma_items_closure_prefix(m, i + 1);
                }
                return Err(e);
            },
        }
        i = i + 1;
    }
    assert(m.subrange(0, m.len() as int) =~= m);
    Ok(lines)
}

/// The YAML lines of a non-empty record.
fn yaml_record(fields: &Vec<(String, Value)>) -> (r: Result<Vec<String>, String>)
    requires
        fields@.len() > 0,
    ensures
        match r {
            Ok(ls) => !fields_have_closure(vfields_view(fields@)) && strings_view(ls@)
                == yaml_field_lines(vfields_view(fields@)),
            Err(e) => fields_have_closure(vfields_view(fields@)) && e@ == yaml_fn_msg(),
        },
    decreases fields,
{
    let ghost m = vfields_view(fields@);
    proof {
        lemma_vfields_view(fields@);
    }
    let mut lines: Vec<String> = Vec::new();
    let mut i: usize = 0;
    assert(strings_view(lines@) =~= yaml_field_lines(m.subrange(0, 0)));
    while i < fields.len()
        invariant
            m == vfields_view(fields@),
            m.len() == fields@.len(),
            forall|k: int|
                0 <= k < m.len() ==> #[trigger] m[k] == (fields@[k].0@, fields@[k].1@),
            i <= fields@.len(),
            strings_view(lines@) == yaml_field_lines(m.subrange(0, i as int)),
            !fields_have_closure(m.subrange(0, i as int)),
        decreases fields.len() - i,
    {
        proof {
            lemma_fields_closure_step(m, i as int);
            assert(decreases_to!(fields => fields@[i as int].1));
        }
        match yaml_value_lines(&fields[i].1) {
            Ok(sub) => {
                let ghost sv = strings_view(sub@);
                proof {
                    lemma_yaml_lines_nonempty(m[i as int].1);
                    assert(m.subrange(0, i + 1).subrange(0, i as int) =~= m.subrange(0, i as int));
                }
                let ghost base = strings_view(lines@);
                if is_container(&fields[i].1) {
                    let mut head = fields[i].0.clone();
                    head.append(":");
                    proof {
                        lemma_strings_view_push(lines@, head);
                    }
                    lines.push(head);
                    push_indented(&mut lines, &sub, 0);
                    assert(sv.subrange(0, sv.len() as int) =~= sv);
                } else {
                    let mut line = fields[i].0.clone();
                    line.append(": ");
                    push_string(&mut line, &sub[0]);
                    proof {
                        lemma_strings_view_push(lines@, line);
                    }
                    lines.push(line);
                }
                assert(strings_view(lines@) =~= base + field_block(m[i as int].0, m[i as int].1, sv));
            },
            Err(e) => {
                proof {
                    lemma_fields_closure_prefix(m, i + 1);
                }
                return Err(e);
            },
        }
        i = i + 1;
    }
    assert(m.subrange(0, m.len() as int) =~= m);
    Ok(lines)
}

/// The inline TOML text of a value.
fn toml_value_string(v: &Value) -> (r: Result<String, String>)
    ensures
        (match r {
            Ok(s) => Ok(s@),
            Err(e) => Err(e@),
        }) == toml_value_result(v@),
    decreases v,
{
    match v {
        Value::List(items) => toml_list(items),
        Value::Record(fields) => match toml_field_strings(fields) {
            Ok(parts) => {
                let body = join_strings(&parts, ", ");
                Ok(wrap("{ ", body, " }"))
            },
            Err(e) => Err(e),
        },
        Value::Closure(_) => Err(String::from_str("cannot serialize a function to TOML")),
        _ => Ok(scalar_string(v)),
    }
}

/// The inline TOML text of a list.
fn toml_list(items: &Vec<Value>) -> (r: Result<String, String>)
    ensures
        (match r {
            Ok(s) => Ok(s@),
            Err(e) => Err(e@),
        }) == toml_value_result(SpecValue::List(values_view(items@))),
    decreases items,
{
    let ghost m = values_view(items@);
    proof {
        lemma_values_view(items@);
    }
    let mut parts: Vec<String> = Vec::new();
    let mut i: usize = 0;
    while i < items.len()
        invariant
            m == values_view(items@),
            m.len() == items@.len(),
            forall|k: int| 0 <= k < m.len() ==> #[trigger] m[k] == items@[k]@,
            i <= items@.len(),
            parts@.len() == i,
            forall|k: int| 0 <= k < i ==> #[trigger] parts@[k]@ == toml_value(m[k]),
            !items_have_closure(m.subrange(0, i as int)),
        decreases items.len() - i,
    {
        proof {
            lemma_items_closure_step(m, i as int);
        }
        match toml_value_string(&items[i]) {
            Ok(p) => {
                parts.push(p);
            },
            Err(e) => {
                proof {
                    lemma_items_closure_prefix(m, i + 1);
                }
                return Err(e);
            },
        }
        i = i + 1;
    }
    proof {
        assert(m.subrange(0, m.len() as int) =~= m);
        lemma_toml_parts(m);
        assert(strings_view(parts@) =~= toml_parts(m));
    }
    let body = join_strings(&parts, ", ");
    Ok(wrap("[", body, "]"))
}

/// A record key as TOML writes it: bare where allowed, quoted otherwise.
fn toml_key_string(k: &String) -> (r: String)
    ensures
        r@ == toml_key(k@),
{
    let cs = chars_of(k.as_str());
    let mut bare = cs.len() > 0;
    let mut i: usize = 0;
    while i < cs.len()
        invariant
            cs@ == k@,
            i <= cs@.len(),
            bare == (cs@.len() > 0 && forall|j: int| 0 <= j < i ==> #[trigger] bare_key_char(cs@[j])),
        decreases cs.len() - i,
    {
        let c = cs[i];
        let ok = ('A' <= c && c <= 'Z') || ('a' <= c && c <= 'z') || ('0' <= c && c <= '9')
            || c == '_' || c == '-';
        assert(ok == bare_key_char(cs@[i as int]));
        if !ok {
            bare = false;
        }
        assert(forall|j: int| 0 <= j < i + 1 ==> #[trigger] bare_key_char(cs@[j]) <==> (0 <= j < i
            ==> bare_key_char(cs@[j])) && (j == i ==> ok));
        i = i + 1;
    }
    if bare {
        k.clone()
    } else {
        let mut out = String::new();
        push_char(&mut out, '"');
        let e = escape(k.as_str());
        push_string(&mut out, &e);
        push_char(&mut out, '"');
        proof {
            assert(out@ =~= quoted(k@));
        }
        out
    }
}

/// `key = value` for each field of a record.
fn toml_field_strings(fields: &Vec<(String, Value)>) -> (r: Result<Vec<String>, String>)
    ensures
        match r {
            Ok(parts) => !fields_have_closure(vfields_view(fields@)) && strings_view(parts@)
                == toml_field_parts(vfields_view(fields@)),
            Err(e) => fields_have_closure(vfields_view(fields@)) && e@ == toml_fn_msg(),
        },
    decreases fields,
{
    let ghost m = vfields_view(fields@);
    proof {
        lemma_vfields_view(fields@);
    }
    let mut parts: Vec<String> = Vec::new();
    let mut i: usize = 0;
    while i < fields.len()
        invariant
            m == vfields_view(fields@),
            m.len() == fields@.len(),
            forall|k: int|
                0 <= k < m.len() ==> #[trigger] m[k] == (fields@[k].0@, fields@[k].1@),
            i <= fields@.len(),
            parts@.len() == i,
            forall|k: int|
                0 <= k < i ==> #[trigger] parts@[k]@ == toml_key(m[k].0) + " = "@ + toml_value(
                    m[k].1,
                ),
            !fields_have_closure(m.subrange(0, i as int)),
        decreases fields.len() - i,
    {
        proof {
            lemma_fields_closure_step(m, i as int);
            assert(decreases_to!(fields => fields@[i as int].1));
        }
        match toml_value_string(&fields[i].1) {
            Ok(p) => {
                let mut part = toml_key_string(&fields[i].0);
                part.append(" = ");
                push_string(&mut part, &p);
                parts.push(part);
            },
            Err(e) => {
                proof {
                    lemma_fields_closure_prefix(m, i + 1);
                }
                return Err(e);
            },
        }
        i = i + 1;
    }
    proof {
        assert(m.subrange(0, m.len() as int) =~= m);
        lemma_toml_field_parts(m);
        assert(strings_view(parts@) =~= toml_field_parts(m));
    }
    Ok(parts)
}

impl Value {
    /// Serializes this value to a JSON string.
    ///
    /// A value holding a closure anywhere is an error — functions never appear
    /// in output.
    pub fn to_json(&self) -> (r: Result<String, String>)
        ensures
            (match r {
                Ok(s) => Ok(s@),
                Err(e) => Err(e@),
            }) == json_result(self@),
        decreases self,
    {
        match self {
            Value::List(items) => json_list(items),
            Value::Record(fields) => json_record(fields),
            Value::Closure(_) => Err(String::from_str("cannot serialize a function to JSON")),
            _ => Ok(scalar_string(self)),
        }
    }

    /// Serializes this value to a YAML string (block style).
    ///
    /// Like [`Value::to_json`], a value holding a closure is an error.
    pub fn to_yaml(&self) -> (r: Result<String, String>)
        ensures
            (match r {
                Ok(s) => Ok(s@),
                Err(e) => Err(e@),
            }) == yaml_result(self@),
    {
        match yaml_value_lines(self) {
            Ok(lines) => Ok(join_strings(&lines, "\n")),
            Err(e) => Err(e),
        }
    }

    /// Serializes this value to a TOML string.
    ///
    /// TOML documents must be a table at the top level, so this errors unless
    /// the value is a record.
    pub fn to_toml(&self) -> (r: Result<String, String>)
        ensures
            (match r {
                Ok(s) => Ok(s@),
                Err(e) => Err(e@),
            }) == toml_doc(self@),
    {
        match self {
            Value::Record(fields) => match toml_field_strings(fields) {
                Ok(lines) => Ok(join_strings(&lines, "\n")),
                Err(e) => Err(e),
            },
            Value::Closure(_) => Err(String::from_str("cannot serialize a function to TOML")),
            _ => Err(String::from_str("TOML output requires a top-level record (mapping)")),
        }
    }
}

/// The output of a value in the format named `format` (`json`, `yaml` or
/// `toml`); `None` for any other name.
pub open spec fn rendered(v: SpecValue, format: Seq<char>) -> Option<Result<Seq<char>, Seq<char>>> {
    if format == "json"@ {
        Some(json_result(v))
    } else if format == "yaml"@ {
        Some(yaml_result(v))
    } else if format == "toml"@ {
        Some(toml_doc(v))
    } else {
        None
    }
}

/// Serializes a value in the format named `format` (`json`, `yaml` or
/// `toml`); `None` when the name is none of these.
pub fn render(v: &Value, format: &str) -> (r: Option<Result<String, String>>)
    ensures
        (match r {
            Some(Ok(s)) => Some(Ok(s@)),
            Some(Err(e)) => Some(Err(e@)),
            None => None,
        }) == rendered(v@, format@),
{
    if str_eq(format, "json") {
        Some(v.to_json())
    } else if str_eq(format, "yaml") {
        Some(v.to_yaml())
    } else if str_eq(format, "toml") {
        Some(v.to_toml())
    } else {
        None
    }
}

} // verus!
