//! The flexible value parser: raw text, possibly wrapped in prose or
//! markdown fences, with JSON5-like leniency (unquoted keys, single quotes,
//! trailing commas, comments, barewords) and tolerance for truncated input,
//! parsed into a generic `Value` tree.  Unterminated strings, arrays and
//! objects are closed implicitly and marked `Incomplete`; text that could be
//! read several ways becomes an `AnyOf` of the candidates.  The whole parser
//! is specified by `parse_spec` and its helpers, and the executable parser
//! is proved to compute exactly what they say.

use vstd::prelude::*;
use crate::error::ErrV;
use crate::error::ErrorReason;
use crate::error::ParsingError;
use crate::error::ReasonV;
use crate::numtext::int_lexeme_value;
use crate::numtext::is_decimal_lexeme;
use crate::numtext::is_int_lexeme;
use crate::textutil::is_ws;
use crate::textutil::trim_seq;
use crate::value::CompletionState;
use crate::value::Value;
use crate::value::ValueV;
use crate::value::model_value_pairs;
use crate::value::model_values;

verus! {

/// Index just past the end of the current line (past the newline).
pub open spec fn line_end(s: Seq<char>, i: int) -> int
    decreases s.len() - i when 0 <= i <= s.len()
{
    if i >= s.len() {
        s.len() as int
    } else if s[i] == '\n' {
        i + 1
    } else {
        line_end(s, i + 1)
    }
}

pub proof fn lemma_line_end_bounds(s: Seq<char>, i: int)
    requires
        0 <= i <= s.len(),
    ensures
        i <= line_end(s, i) <= s.len(),
    decreases s.len() - i,
{
    if i < s.len() && s[i] != '\n' {
        lemma_line_end_bounds(s, i + 1);
    }
}

/// Index just past the closing `*/` of a block comment, or the end.
pub open spec fn block_end(s: Seq<char>, i: int) -> int
    decreases s.len() - i when 0 <= i <= s.len()
{
    if i >= s.len() {
        s.len() as int
    } else if i + 1 < s.len() && s[i] == '*' && s[i + 1] == '/' {
        i + 2
    } else {
        block_end(s, i + 1)
    }
}

pub proof fn lemma_block_end_bounds(s: Seq<char>, i: int)
    requires
        0 <= i <= s.len(),
    ensures
        i <= block_end(s, i) <= s.len(),
    decreases s.len() - i,
{
    if i < s.len() && !(i + 1 < s.len() && s[i] == '*' && s[i + 1] == '/') {
        lemma_block_end_bounds(s, i + 1);
    }
}

/// Index of the next character that is neither whitespace nor a comment.
pub open spec fn ws_end(s: Seq<char>, i: int) -> int
    decreases s.len() - i when 0 <= i <= s.len()
{
    if i < s.len() && is_ws(s[i]) {
        ws_end(s, i + 1)
    } else if i + 1 < s.len() && s[i] == '/' && s[i + 1] == '/' {
        proof {
            lemma_line_end_bounds(s, i + 2);
        }
        ws_end(s, line_end(s, i + 2))
    } else if i + 1 < s.len() && s[i] == '/' && s[i + 1] == '*' {
        proof {
            lemma_block_end_bounds(s, i + 2);
        }
        ws_end(s, block_end(s, i + 2))
    } else {
        i
    }
}

pub proof fn lemma_ws_end_bounds(s: Seq<char>, i: int)
    requires
        0 <= i <= s.len(),
    ensures
        i <= ws_end(s, i) <= s.len(),
    decreases s.len() - i,
{
    if i < s.len() && is_ws(s[i]) {
        lemma_ws_end_bounds(s, i + 1);
    } else if i + 1 < s.len() && s[i] == '/' && s[i + 1] == '/' {
        lemma_line_end_bounds(s, i + 2);
        lemma_ws_end_bounds(s, line_end(s, i + 2));
    } else if i + 1 < s.len() && s[i] == '/' && s[i + 1] == '*' {
        lemma_block_end_bounds(s, i + 2);
        lemma_ws_end_bounds(s, block_end(s, i + 2));
    }
}

/// Characters that end an unquoted token.
pub open spec fn is_delim(c: char) -> bool {
    c == ',' || c == '}' || c == ']' || c == ':' || c == '\n' || c == '{' || c == '[' || c == '"'
        || c == '\''
}

/// Index of the first delimiter at or after `i`.
pub open spec fn token_end(s: Seq<char>, i: int) -> int
    decreases s.len() - i when 0 <= i <= s.len()
{
    if i < s.len() && !is_delim(s[i]) {
        token_end(s, i + 1)
    } else {
        i
    }
}

pub proof fn lemma_token_end_bounds(s: Seq<char>, i: int)
    requires
        0 <= i <= s.len(),
    ensures
        i <= token_end(s, i) <= s.len(),
    decreases s.len() - i,
{
    if i < s.len() && !is_delim(s[i]) {
        lemma_token_end_bounds(s, i + 1);
    }
}

/// How a backslash escape maps a character.
pub open spec fn escape_char(c: char) -> char {
    if c == 'n' {
        '\n'
    } else if c == 't' {
        '\t'
    } else if c == 'r' {
        '\r'
    } else {
        c
    }
}

/// The bareword reading of a trimmed token: `true`, `false`, `null`, an
/// integer, a decimal, or just the text.
pub open spec fn classify(tok: Seq<char>) -> ValueV {
    let t = trim_seq(tok);
    if t == "true"@ {
        ValueV::Bool(true)
    } else if t == "false"@ {
        ValueV::Bool(false)
    } else if t == "null"@ {
        ValueV::Null
    } else if is_int_lexeme(t) && i64::MIN <= int_lexeme_value(t) <= i64::MAX {
        ValueV::Int(int_lexeme_value(t))
    } else if is_decimal_lexeme(t) {
        ValueV::Float(t)
    } else {
        ValueV::Str(t, CompletionState::Complete)
    }
}

/// A quoted string from position `i` (just past the opening quote): the
/// content with escapes applied, the index past the closing quote, and
/// whether the closing quote was seen before the input ended.
pub open spec fn sp_string(s: Seq<char>, i: int, q: char) -> (Seq<char>, int, CompletionState)
    decreases s.len() - i when 0 <= i <= s.len()
{
    if i >= s.len() {
        (Seq::empty(), s.len() as int, CompletionState::Incomplete)
    } else if s[i] == q {
        (Seq::empty(), i + 1, CompletionState::Complete)
    } else if s[i] == '\\' && i + 1 < s.len() {
        let rest = sp_string(s, i + 2, q);
        (seq![escape_char(s[i + 1])] + rest.0, rest.1, rest.2)
    } else if s[i] == '\\' {
        (Seq::empty(), s.len() as int, CompletionState::Incomplete)
    } else {
        let rest = sp_string(s, i + 1, q);
        (seq![s[i]] + rest.0, rest.1, rest.2)
    }
}

pub proof fn lemma_sp_string_bounds(s: Seq<char>, i: int, q: char)
    requires
        0 <= i <= s.len(),
    ensures
        i <= sp_string(s, i, q).1 <= s.len(),
    decreases s.len() - i,
{
    if i >= s.len() {
    } else if s[i] == q {
    } else if s[i] == '\\' && i + 1 < s.len() {
        lemma_sp_string_bounds(s, i + 2, q);
    } else if s[i] == '\\' {
    } else {
        lemma_sp_string_bounds(s, i + 1, q);
    }
}

/// A scalar at position `i`: a quoted string or a bareword token.  Always
/// consumes at least one character.
pub open spec fn sp_scalar(s: Seq<char>, i: int) -> (ValueV, int)
    decreases s.len() - i, 1nat when 0 <= i < s.len()
{
    if s[i] == '"' || s[i] == '\'' {
        let st = sp_string(s, i + 1, s[i]);
        (ValueV::Str(st.0, st.2), st.1)
    } else {
        let e = token_end(s, i);
        if e <= i {
            (ValueV::Str(seq![s[i]], CompletionState::Complete), i + 1)
        } else {
            (classify(s.subrange(i, e)), e)
        }
    }
}

pub proof fn lemma_sp_scalar_bounds(s: Seq<char>, i: int)
    requires
        0 <= i < s.len(),
    ensures
        i < sp_scalar(s, i).1 <= s.len(),
    decreases s.len() - i, 1nat,
{
    if s[i] == '"' || s[i] == '\'' {
        lemma_sp_string_bounds(s, i + 1, s[i]);
    } else {
        lemma_token_end_bounds(s, i);
    }
}

/// A value at position `i`: an object, an array, or a scalar.
pub open spec fn sp_value(s: Seq<char>, i: int) -> (ValueV, int)
    decreases s.len() - i, 2nat when 0 <= i <= s.len()
{
    if i >= s.len() {
        (ValueV::Str(Seq::empty(), CompletionState::Incomplete), s.len() as int)
    } else if s[i] == '{' {
        let r = sp_object_items(s, i + 1);
        (ValueV::Object(r.0, r.2), r.1)
    } else if s[i] == '[' {
        let r = sp_array_items(s, i + 1);
        (ValueV::Array(r.0, r.2), r.1)
    } else {
        sp_scalar(s, i)
    }
}

pub proof fn lemma_sp_value_bounds(s: Seq<char>, i: int)
    requires
        0 <= i <= s.len(),
    ensures
        i <= sp_value(s, i).1 <= s.len(),
    decreases s.len() - i, 2nat,
{
    if i >= s.len() {
    } else if s[i] == '{' {
        lemma_sp_object_items_bounds(s, i + 1);
    } else if s[i] == '[' {
        lemma_sp_array_items_bounds(s, i + 1);
    } else {
        lemma_sp_scalar_bounds(s, i);
    }
}

/// The elements of an array from position `i` (just past `[` or a comma):
/// the items, the index past the closing bracket, and whether the bracket
/// was seen before the input ended.  Stray commas are skipped.
pub open spec fn sp_array_items(s: Seq<char>, i: int) -> (Seq<ValueV>, int, CompletionState)
    decreases s.len() - i, 3nat when 0 <= i <= s.len()
{
    proof {
        lemma_ws_end_bounds(s, i);
    }
    let w = ws_end(s, i);
    if w >= s.len() {
        (Seq::empty(), s.len() as int, CompletionState::Incomplete)
    } else if s[w] == ']' {
        (Seq::empty(), w + 1, CompletionState::Complete)
    } else if s[w] == ',' {
        let rest = sp_array_items(s, w + 1);
        (rest.0, rest.1, rest.2)
    } else {
        let v = sp_value(s, w);
        let nxt = if v.1 > w && v.1 <= s.len() {
            v.1
        } else {
            w + 1
        };
        let rest = sp_array_items(s, nxt);
        (seq![v.0] + rest.0, rest.1, rest.2)
    }
}

pub proof fn lemma_sp_array_items_bounds(s: Seq<char>, i: int)
    requires
        0 <= i <= s.len(),
    ensures
        i <= sp_array_items(s, i).1 <= s.len(),
    decreases s.len() - i, 3nat,
{
    lemma_ws_end_bounds(s, i);
    let w = ws_end(s, i);
    if w >= s.len() {
    } else if s[w] == ']' {
    } else if s[w] == ',' {
        lemma_sp_array_items_bounds(s, w + 1);
    } else {
        let v = sp_value(s, w);
        lemma_sp_value_bounds(s, w);
        let nxt = if v.1 > w && v.1 <= s.len() {
            v.1
        } else {
            w + 1
        };
        lemma_sp_array_items_bounds(s, nxt);
    }
}

/// The fields of an object from position `i` (just past `{` or a comma):
/// keys may be quoted or bare; a key without a colon is kept with a null
/// value; stray commas are skipped.
pub open spec fn sp_object_items(s: Seq<char>, i: int) -> (
    Seq<(Seq<char>, ValueV)>,
    int,
    CompletionState,
)
    decreases s.len() - i, 3nat when 0 <= i <= s.len()
{
    proof {
        lemma_ws_end_bounds(s, i);
    }
    let w = ws_end(s, i);
    if w >= s.len() {
        (Seq::empty(), s.len() as int, CompletionState::Incomplete)
    } else if s[w] == '}' {
        (Seq::empty(), w + 1, CompletionState::Complete)
    } else if s[w] == ',' {
        let rest = sp_object_items(s, w + 1);
        (rest.0, rest.1, rest.2)
    } else {
        let kp = sp_key(s, w);
        let key = kp.0;
        let k_end = if w <= kp.1 <= s.len() {
            kp.1
        } else {
            w
        };
        proof {
            lemma_ws_end_bounds(s, k_end);
        }
        let w2 = ws_end(s, k_end);
        if w2 < s.len() && s[w2] == ':' {
            proof {
                lemma_ws_end_bounds(s, w2 + 1);
            }
            let wv = ws_end(s, w2 + 1);
            let v = sp_value(s, wv);
            let nxt = if v.1 > w2 && v.1 <= s.len() {
                v.1
            } else {
                w2 + 1
            };
            let rest = sp_object_items(s, nxt);
            (seq![(key, v.0)] + rest.0, rest.1, rest.2)
        } else {
            let nxt = if k_end > w && k_end <= s.len() {
                k_end
            } else {
                w + 1
            };
            let rest = sp_object_items(s, nxt);
            (seq![(key, ValueV::Null)] + rest.0, rest.1, rest.2)
        }
    }
}

pub proof fn lemma_sp_object_items_bounds(s: Seq<char>, i: int)
    requires
        0 <= i <= s.len(),
    ensures
        i <= sp_object_items(s, i).1 <= s.len(),
    decreases s.len() - i, 3nat,
{
    lemma_ws_end_bounds(s, i);
    let w = ws_end(s, i);
    if w >= s.len() {
    } else if s[w] == '}' {
    } else if s[w] == ',' {
        lemma_sp_object_items_bounds(s, w + 1);
    } else {
        let kp = sp_key(s, w);
        lemma_sp_key_bounds(s, w);
        let k_end = if w <= kp.1 <= s.len() {
            kp.1
        } else {
            w
        };
        lemma_ws_end_bounds(s, k_end);
        let w2 = ws_end(s, k_end);
        if w2 < s.len() && s[w2] == ':' {
            lemma_ws_end_bounds(s, w2 + 1);
            let wv = ws_end(s, w2 + 1);
            let v = sp_value(s, wv);
            lemma_sp_value_bounds(s, wv);
            let nxt = if v.1 > w2 && v.1 <= s.len() {
                v.1
            } else {
                w2 + 1
            };
            lemma_sp_object_items_bounds(s, nxt);
        } else {
            let nxt = if k_end > w && k_end <= s.len() {
                k_end
            } else {
                w + 1
            };
            lemma_sp_object_items_bounds(s, nxt);
        }
    }
}

/// An object key at position `i`: quoted, or the trimmed bareword up to the
/// next delimiter.
pub open spec fn sp_key(s: Seq<char>, i: int) -> (Seq<char>, int)
    decreases s.len() - i, 1nat when 0 <= i < s.len()
{
    if s[i] == '"' || s[i] == '\'' {
        let st = sp_string(s, i + 1, s[i]);
        (st.0, st.1)
    } else {
        let e = token_end(s, i);
        (trim_seq(s.subrange(i, e)), e)
    }
}

pub proof fn lemma_sp_key_bounds(s: Seq<char>, i: int)
    requires
        0 <= i < s.len(),
    ensures
        i <= sp_key(s, i).1 <= s.len(),
    decreases s.len() - i, 1nat,
{
    if s[i] == '"' || s[i] == '\'' {
        lemma_sp_string_bounds(s, i + 1, s[i]);
    } else {
        lemma_token_end_bounds(s, i);
    }
}

/// First position of a markdown fence (three backticks) at or after `i`.
pub open spec fn fence_start(s: Seq<char>, i: int) -> Option<int>
    decreases s.len() - i when 0 <= i <= s.len()
{
    if i + 2 >= s.len() {
        Option::None
    } else if s[i] == '`' && s[i + 1] == '`' && s[i + 2] == '`' {
        Option::Some(i)
    } else {
        fence_start(s, i + 1)
    }
}

pub proof fn lemma_fence_start_bounds(s: Seq<char>, i: int)
    requires
        0 <= i <= s.len(),
    ensures
        fence_start(s, i) matches Option::Some(f) ==> i <= f && f + 3 <= s.len(),
    decreases s.len() - i,
{
    if i + 2 >= s.len() {
    } else if s[i] == '`' && s[i + 1] == '`' && s[i + 2] == '`' {
    } else {
        lemma_fence_start_bounds(s, i + 1);
    }
}

/// First `{` or `[` at or after `i`.
pub open spec fn struct_start(s: Seq<char>, i: int) -> Option<int>
    decreases s.len() - i when 0 <= i <= s.len()
{
    if i >= s.len() {
        Option::None
    } else if s[i] == '{' || s[i] == '[' {
        Option::Some(i)
    } else {
        struct_start(s, i + 1)
    }
}

pub proof fn lemma_struct_start_bounds(s: Seq<char>, i: int)
    requires
        0 <= i <= s.len(),
    ensures
        struct_start(s, i) matches Option::Some(f) ==> i <= f < s.len(),
    decreases s.len() - i,
{
    if i < s.len() && !(s[i] == '{' || s[i] == '[') {
        lemma_struct_start_bounds(s, i + 1);
    }
}

/// What parsing a whole text yields: `None` only when the text is all
/// whitespace.  A markdown fence offers its parsed content and the raw text
/// as candidates; otherwise the first structural delimiter anchors a parse,
/// offered beside the raw text; otherwise the input is a bare scalar.
pub open spec fn parse_spec(s: Seq<char>) -> Option<ValueV>
    decreases s.len(), 4nat,
{
    proof {
        lemma_ws_end_bounds(s, 0);
    }
    let w = ws_end(s, 0);
    if w >= s.len() {
        Option::None
    } else {
        match fence_start(s, 0) {
            Option::Some(f) => {
                proof {
                    lemma_fence_start_bounds(s, 0);
                    lemma_line_end_bounds(s, f + 3);
                }
                let le = line_end(s, f + 3);
                let lang = trim_seq(s.subrange(f + 3, le));
                let content_end = match fence_start(s, le) {
                    Option::Some(cf) => cf,
                    Option::None => s.len() as int,
                };
                proof {
                    lemma_fence_start_bounds(s, le);
                }
                let content = s.subrange(le, content_end);
                let inner = match parse_spec(content) {
                    Option::Some(v) => v,
                    Option::None => ValueV::Str(Seq::empty(), CompletionState::Complete),
                };
                Option::Some(
                    ValueV::AnyOf(
                        seq![
                            ValueV::Fenced(lang, Box::new(inner)),
                            ValueV::Str(trim_seq(s), CompletionState::Complete),
                        ],
                        s,
                    ),
                )
            },
            Option::None => match struct_start(s, w) {
                Option::Some(f) => {
                    proof {
                        lemma_struct_start_bounds(s, w);
                    }
                    let v = sp_value(s, f);
                    Option::Some(
                        ValueV::AnyOf(
                            seq![v.0, ValueV::Str(trim_seq(s), CompletionState::Complete)],
                            s,
                        ),
                    )
                },
                Option::None => {
                    let v = sp_scalar(s, w);
                    if s[w] == '"' || s[w] == '\'' {
                        Option::Some(
                            ValueV::AnyOf(
                                seq![v.0, ValueV::Str(trim_seq(s), CompletionState::Complete)],
                                s,
                            ),
                        )
                    } else if v.0 is Str {
                        Option::Some(ValueV::Str(trim_seq(s), CompletionState::Complete))
                    } else {
                        Option::Some(
                            ValueV::AnyOf(
                                seq![v.0, ValueV::Str(trim_seq(s), CompletionState::Complete)],
                                s,
                            ),
                        )
                    }
                },
            },
        }
    }
}

fn line_end_exec(chars: &Vec<char>, i: usize) -> (r: usize)
    requires
        i <= chars@.len(),
    ensures
        r as int == line_end(chars@, i as int),
        i <= r <= chars@.len(),
    decreases chars@.len() - i,
{
    proof {
        lemma_line_end_bounds(chars@, i as int);
    }
    if i >= chars.len() {
        chars.len()
    } else if chars[i] == '\n' {
        i + 1
    } else {
        line_end_exec(chars, i + 1)
    }
}

fn block_end_exec(chars: &Vec<char>, i: usize) -> (r: usize)
    requires
        i <= chars@.len(),
    ensures
        r as int == block_end(chars@, i as int),
        i <= r <= chars@.len(),
    decreases chars@.len() - i,
{
    proof {
        lemma_block_end_bounds(chars@, i as int);
    }
    let n = chars.len();
    if i >= n {
        n
    } else if i + 1 < n && chars[i] == '*' && chars[i + 1] == '/' {
        i + 2
    } else {
        block_end_exec(chars, i + 1)
    }
}

fn ws_end_exec(chars: &Vec<char>, i: usize) -> (r: usize)
    requires
        i <= chars@.len(),
    ensures
        r as int == ws_end(chars@, i as int),
        i <= r <= chars@.len(),
    decreases chars@.len() - i,
{
    proof {
        lemma_ws_end_bounds(chars@, i as int);
    }
    let n = chars.len();
    if i < n && crate::textutil::ws_char(chars[i]) {
        ws_end_exec(chars, i + 1)
    } else if i < n && i + 1 < n && chars[i] == '/' && chars[i + 1] == '/' {
        let le = line_end_exec(chars, i + 2);
        ws_end_exec(chars, le)
    } else if i < n && i + 1 < n && chars[i] == '/' && chars[i + 1] == '*' {
        let be = block_end_exec(chars, i + 2);
        ws_end_exec(chars, be)
    } else {
        i
    }
}

fn delim_char(c: char) -> (r: bool)
    ensures
        r == is_delim(c),
{
    c == ',' || c == '}' || c == ']' || c == ':' || c == '\n' || c == '{' || c == '['
        || c == '"' || c == '\''
}

fn token_end_exec(chars: &Vec<char>, i: usize) -> (r: usize)
    requires
        i <= chars@.len(),
    ensures
        r as int == token_end(chars@, i as int),
        i <= r <= chars@.len(),
    decreases chars@.len() - i,
{
    proof {
        lemma_token_end_bounds(chars@, i as int);
    }
    if i < chars.len() && !delim_char(chars[i]) {
        token_end_exec(chars, i + 1)
    } else {
        i
    }
}

/// A copy of the characters in `[a, b)`.
fn substring_vec(chars: &Vec<char>, a: usize, b: usize) -> (r: Vec<char>)
    requires
        a <= b <= chars@.len(),
    ensures
        r@ == chars@.subrange(a as int, b as int),
{
    let mut out: Vec<char> = Vec::new();
    let mut i: usize = a;
    while i < b
        invariant
            a <= i <= b <= chars@.len(),
            out@ == chars@.subrange(a as int, i as int),
        decreases b - i,
    {
        out.push(chars[i]);
        proof {
            assert(out@ =~= chars@.subrange(a as int, i + 1 as int));
        }
        i = i + 1;
    }
    out
}

/// The bareword reading of a token.
fn classify_exec(tok: &Vec<char>) -> (r: Value)
    ensures
        r.model() == classify(tok@),
{
    let s = crate::textutil::chars_to_string(tok);
    let trimmed = crate::textutil::trim_string(&s);
    if string_lit_eq(&trimmed, "true") {
        Value::Bool(true)
    } else if string_lit_eq(&trimmed, "false") {
        Value::Bool(false)
    } else if string_lit_eq(&trimmed, "null") {
        Value::Null
    } else {
        match crate::numtext::parse_int_string(&trimmed) {
            Some(n) => Value::Int(n),
            None => {
                let tch = crate::textutil::str_to_chars(trimmed.as_str());
                if crate::numtext::is_decimal_chars(&tch) {
                    Value::Float(trimmed)
                } else {
                    Value::Str(trimmed, CompletionState::Complete)
                }
            },
        }
    }
}

fn string_lit_eq(a: &String, lit: &str) -> (r: bool)
    ensures
        r == (a@ == lit@),
{
    let other = lit.to_owned();
    *a == other
}

fn sp_string_exec(chars: &Vec<char>, i: usize, q: char) -> (r: (Vec<char>, usize, CompletionState))
    requires
        i <= chars@.len(),
    ensures
        (r.0@, r.1 as int, r.2) == sp_string(chars@, i as int, q),
    decreases chars@.len() - i,
{
    if i >= chars.len() {
        let out: Vec<char> = Vec::new();
        proof {
            assert(out@ =~= sp_string(chars@, i as int, q).0);
        }
        (out, chars.len(), CompletionState::Incomplete)
    } else if chars[i] == q {
        let out: Vec<char> = Vec::new();
        proof {
            assert(out@ =~= sp_string(chars@, i as int, q).0);
        }
        (out, i + 1, CompletionState::Complete)
    } else if chars[i] == '\\' && i + 1 < chars.len() {
        let c = chars[i + 1];
        let e = if c == 'n' {
            '\n'
        } else if c == 't' {
            '\t'
        } else if c == 'r' {
            '\r'
        } else {
            c
        };
        let rest = sp_string_exec(chars, i + 2, q);
        let mut out = rest.0;
        out.insert(0, e);
        proof {
            assert(out@ =~= sp_string(chars@, i as int, q).0);
        }
        (out, rest.1, rest.2)
    } else if chars[i] == '\\' {
        let out: Vec<char> = Vec::new();
        proof {
            assert(out@ =~= sp_string(chars@, i as int, q).0);
        }
        (out, chars.len(), CompletionState::Incomplete)
    } else {
        let c = chars[i];
        let rest = sp_string_exec(chars, i + 1, q);
        let mut out = rest.0;
        out.insert(0, c);
        proof {
            assert(out@ =~= sp_string(chars@, i as int, q).0);
        }
        (out, rest.1, rest.2)
    }
}

fn sp_scalar_exec(chars: &Vec<char>, i: usize) -> (r: (Value, usize))
    requires
        i < chars@.len(),
    ensures
        r.0.model() == sp_scalar(chars@, i as int).0,
        r.1 as int == sp_scalar(chars@, i as int).1,
        i < r.1 <= chars@.len(),
    decreases chars@.len() - i, 1nat,
{
    proof {
        lemma_sp_scalar_bounds(chars@, i as int);
    }
    let n = chars.len();
    if chars[i] == '"' || chars[i] == '\'' {
        let q = chars[i];
        let st = sp_string_exec(chars, i + 1, q);
        (Value::Str(crate::textutil::chars_to_string(&st.0), st.2), st.1)
    } else {
        let e = token_end_exec(chars, i);
        if e <= i {
            let mut one: Vec<char> = Vec::new();
            one.push(chars[i]);
            proof {
                assert(one@ =~= seq![chars@[i as int]]);
            }
            (
                Value::Str(crate::textutil::chars_to_string(&one), CompletionState::Complete),
                i + 1,
            )
        } else {
            let tok = substring_vec(chars, i, e);
            (classify_exec(&tok), e)
        }
    }
}

fn sp_value_exec(chars: &Vec<char>, i: usize) -> (r: (Value, usize))
    requires
        i <= chars@.len(),
    ensures
        r.0.model() == sp_value(chars@, i as int).0,
        r.1 as int == sp_value(chars@, i as int).1,
        i <= r.1 <= chars@.len(),
    decreases chars@.len() - i, 2nat,
{
    proof {
        lemma_sp_value_bounds(chars@, i as int);
    }
    if i >= chars.len() {
        (
            Value::Str(String::new(), CompletionState::Incomplete),
            chars.len(),
        )
    } else if chars[i] == '{' {
        let r = sp_object_items_exec(chars, i + 1);
        (Value::Object(r.0, r.2), r.1)
    } else if chars[i] == '[' {
        let r = sp_array_items_exec(chars, i + 1);
        (Value::Array(r.0, r.2), r.1)
    } else {
        sp_scalar_exec(chars, i)
    }
}

fn sp_array_items_exec(chars: &Vec<char>, i: usize) -> (r: (Vec<Value>, usize, CompletionState))
    requires
        i <= chars@.len(),
    ensures
        model_values(r.0@) == sp_array_items(chars@, i as int).0,
        r.1 as int == sp_array_items(chars@, i as int).1,
        r.2 == sp_array_items(chars@, i as int).2,
        i <= r.1 <= chars@.len(),
    decreases chars@.len() - i, 3nat,
{
    proof {
        lemma_sp_array_items_bounds(chars@, i as int);
    }
    let w = ws_end_exec(chars, i);
    if w >= chars.len() {
        let out: Vec<Value> = Vec::new();
        proof {
            assert(model_values(out@) =~= sp_array_items(chars@, i as int).0);
        }
        (out, chars.len(), CompletionState::Incomplete)
    } else if chars[w] == ']' {
        let out: Vec<Value> = Vec::new();
        proof {
            assert(model_values(out@) =~= sp_array_items(chars@, i as int).0);
        }
        (out, w + 1, CompletionState::Complete)
    } else if chars[w] == ',' {
        sp_array_items_exec(chars, w + 1)
    } else {
        let v = sp_value_exec(chars, w);
        let nxt = if v.1 > w && v.1 <= chars.len() {
            v.1
        } else {
            w + 1
        };
        let rest = sp_array_items_exec(chars, nxt);
        let mut out = rest.0;
        let ghost vm = v.0.model();
        let ghost prevm = model_values(out@);
        out.insert(0, v.0);
        proof {
            crate::value::lemma_model_values(out@);
            crate::value::lemma_model_values(rest.0@);
            assert(model_values(out@) =~= seq![vm] + prevm);
        }
        (out, rest.1, rest.2)
    }
}

fn sp_key_exec(chars: &Vec<char>, i: usize) -> (r: (String, usize))
    requires
        i < chars@.len(),
    ensures
        r.0@ == sp_key(chars@, i as int).0,
        r.1 as int == sp_key(chars@, i as int).1,
        i <= r.1 <= chars@.len(),
    decreases chars@.len() - i, 1nat,
{
    proof {
        lemma_sp_key_bounds(chars@, i as int);
    }
    let n = chars.len();
    if chars[i] == '"' || chars[i] == '\'' {
        let q = chars[i];
        let st = sp_string_exec(chars, i + 1, q);
        (crate::textutil::chars_to_string(&st.0), st.1)
    } else {
        let e = token_end_exec(chars, i);
        let tok = substring_vec(chars, i, e);
        let s = crate::textutil::chars_to_string(&tok);
        (crate::textutil::trim_string(&s), e)
    }
}

fn sp_object_items_exec(chars: &Vec<char>, i: usize) -> (r: (
    Vec<(String, Value)>,
    usize,
    CompletionState,
))
    requires
        i <= chars@.len(),
    ensures
        model_value_pairs(r.0@) == sp_object_items(chars@, i as int).0,
        r.1 as int == sp_object_items(chars@, i as int).1,
        r.2 == sp_object_items(chars@, i as int).2,
        i <= r.1 <= chars@.len(),
    decreases chars@.len() - i, 3nat,
{
    proof {
        lemma_sp_object_items_bounds(chars@, i as int);
    }
    let w = ws_end_exec(chars, i);
    if w >= chars.len() {
        let out: Vec<(String, Value)> = Vec::new();
        proof {
            assert(model_value_pairs(out@) =~= sp_object_items(chars@, i as int).0);
        }
        (out, chars.len(), CompletionState::Incomplete)
    } else if chars[w] == '}' {
        let out: Vec<(String, Value)> = Vec::new();
        proof {
            assert(model_value_pairs(out@) =~= sp_object_items(chars@, i as int).0);
        }
        (out, w + 1, CompletionState::Complete)
    } else if chars[w] == ',' {
        sp_object_items_exec(chars, w + 1)
    } else {
        let kp = sp_key_exec(chars, w);
        let key = kp.0;
        let k_end = if w <= kp.1 && kp.1 <= chars.len() {
            kp.1
        } else {
            w
        };
        let w2 = ws_end_exec(chars, k_end);
        if w2 < chars.len() && chars[w2] == ':' {
            let wv = ws_end_exec(chars, w2 + 1);
            let v = sp_value_exec(chars, wv);
            let nxt = if v.1 > w2 && v.1 <= chars.len() {
                v.1
            } else {
                w2 + 1
            };
            let rest = sp_object_items_exec(chars, nxt);
            let mut out = rest.0;
            let ghost km = key@;
            let ghost vm = v.0.model();
            let ghost prevm = model_value_pairs(out@);
            out.insert(0, (key, v.0));
            proof {
                crate::value::lemma_model_value_pairs(out@);
                crate::value::lemma_model_value_pairs(rest.0@);
                assert(model_value_pairs(out@) =~= seq![(km, vm)] + prevm);
            }
            (out, rest.1, rest.2)
        } else {
            let nxt = if k_end > w && k_end <= chars.len() {
                k_end
            } else {
                w + 1
            };
            let rest = sp_object_items_exec(chars, nxt);
            let mut out = rest.0;
            let ghost km = key@;
            let ghost prevm = model_value_pairs(out@);
            out.insert(0, (key, Value::Null));
            proof {
                crate::value::lemma_model_value_pairs(out@);
                crate::value::lemma_model_value_pairs(rest.0@);
                assert(model_value_pairs(out@) =~= seq![(km, ValueV::Null)] + prevm);
            }
            (out, rest.1, rest.2)
        }
    }
}

fn fence_start_exec(chars: &Vec<char>, i: usize) -> (r: Option<usize>)
    requires
        i <= chars@.len(),
    ensures
        match r {
            Option::Some(f) => fence_start(chars@, i as int) == Option::Some(f as int) && i <= f
                && f + 3 <= chars@.len(),
            Option::None => fence_start(chars@, i as int) is None,
        },
    decreases chars@.len() - i,
{
    let n = chars.len();
    if n < 3 || i >= n - 2 {
        None
    } else if chars[i] == '`' && chars[i + 1] == '`' && chars[i + 2] == '`' {
        Some(i)
    } else {
        fence_start_exec(chars, i + 1)
    }
}

fn struct_start_exec(chars: &Vec<char>, i: usize) -> (r: Option<usize>)
    requires
        i <= chars@.len(),
    ensures
        match r {
            Option::Some(f) => struct_start(chars@, i as int) == Option::Some(f as int) && i <= f
                < chars@.len(),
            Option::None => struct_start(chars@, i as int) is None,
        },
    decreases chars@.len() - i,
{
    if i >= chars.len() {
        None
    } else if chars[i] == '{' || chars[i] == '[' {
        Some(i)
    } else {
        struct_start_exec(chars, i + 1)
    }
}

fn parse_chars(chars: &Vec<char>) -> (r: Option<Value>)
    ensures
        match (r, parse_spec(chars@)) {
            (Option::Some(v), Option::Some(vv)) => v.model() == vv,
            (Option::None, Option::None) => true,
            _ => false,
        },
    decreases chars@.len(), 4nat,
{
    let w = ws_end_exec(chars, 0);
    if w >= chars.len() {
        return None;
    }
    let raw = crate::textutil::chars_to_string(chars);
    let trimmed = crate::textutil::trim_string(&raw);
    match fence_start_exec(chars, 0) {
        Some(f) => {
            let le = line_end_exec(chars, f + 3);
            let lang_chars = substring_vec(chars, f + 3, le);
            let lang_raw = crate::textutil::chars_to_string(&lang_chars);
            let lang = crate::textutil::trim_string(&lang_raw);
            let content_end = match fence_start_exec(chars, le) {
                Some(cf) => cf,
                None => chars.len(),
            };
            let content = substring_vec(chars, le, content_end);
            let inner = match parse_chars(&content) {
                Some(v) => v,
                None => Value::Str(String::new(), CompletionState::Complete),
            };
            let ghost lg = lang@;
            let ghost im = inner.model();
            proof {
                let sv = parse_spec(chars@)->Some_0;
                assert(im == sv->AnyOf_0[0]->Fenced_1);
            }
            let fenced = Value::Fenced(lang, Box::new(inner));
            let ghost fm = fenced.model();
            proof {
                assert(fm == ValueV::Fenced(lg, Box::new(im)));
            }
            let mut cands: Vec<Value> = Vec::new();
            cands.push(fenced);
            cands.push(Value::Str(trimmed, CompletionState::Complete));
            let ghost cm = model_values(cands@);
            proof {
                crate::value::lemma_model_values(cands@);
                let sv = parse_spec(chars@)->Some_0;
                assert(cm[0] == fm);
                assert(cm =~~= sv->AnyOf_0);
            }
            Some(Value::AnyOf(cands, raw))
        },
        None => match struct_start_exec(chars, w) {
            Some(f) => {
                let v = sp_value_exec(chars, f);
                let mut cands: Vec<Value> = Vec::new();
                cands.push(v.0);
                cands.push(Value::Str(trimmed, CompletionState::Complete));
                let ghost cm = model_values(cands@);
                proof {
                    crate::value::lemma_model_values(cands@);
                    let sv = parse_spec(chars@)->Some_0;
                    assert(cm =~~= sv->AnyOf_0);
                }
                Some(Value::AnyOf(cands, raw))
            },
            None => {
                let v = sp_scalar_exec(chars, w);
                let quoted = chars[w] == '"' || chars[w] == '\'';
                let is_str = match &v.0 {
                    Value::Str(_, _) => true,
                    _ => false,
                };
                if quoted {
                    let mut cands: Vec<Value> = Vec::new();
                    cands.push(v.0);
                    cands.push(Value::Str(trimmed, CompletionState::Complete));
                    let ghost cm = model_values(cands@);
                    proof {
                        crate::value::lemma_model_values(cands@);
                        let sv = parse_spec(chars@)->Some_0;
                        assert(cm =~~= sv->AnyOf_0);
                    }
                    Some(Value::AnyOf(cands, raw))
                } else if is_str {
                    Some(Value::Str(trimmed, CompletionState::Complete))
                } else {
                    let mut cands: Vec<Value> = Vec::new();
                    cands.push(v.0);
                    cands.push(Value::Str(trimmed, CompletionState::Complete));
                    let ghost cm = model_values(cands@);
                    proof {
                        crate::value::lemma_model_values(cands@);
                        let sv = parse_spec(chars@)->Some_0;
                        assert(cm =~~= sv->AnyOf_0);
                    }
                    Some(Value::AnyOf(cands, raw))
                }
            },
        },
    }
}

/// Parse raw text into a generic value tree.  Fails only when the text is
/// all whitespace; every other input yields a value, possibly marked
/// incomplete or offered as several candidates.
pub fn parse(text: &str) -> (r: Result<Value, ParsingError>)
    ensures
        match (r, parse_spec(text@)) {
            (Result::Ok(v), Option::Some(vv)) => v.model() == vv,
            (Result::Err(e), Option::None) => e.model() == ErrV {
                scope: Seq::empty(),
                reason: ReasonV::Unparsable(text@),
            },
            _ => false,
        },
{
    let chars = crate::textutil::str_to_chars(text);
    match parse_chars(&chars) {
        Some(v) => Ok(v),
        None => {
            let err = ParsingError {
                scope: Vec::new(),
                reason: ErrorReason::Unparsable(text.to_owned()),
            };
            proof {
                assert(crate::error::scope_view(err.scope@) =~= Seq::<Seq<char>>::empty());
            }
            Err(err)
        },
    }
}

} // verus!
