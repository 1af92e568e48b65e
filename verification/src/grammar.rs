//! The JSON grammar, as specification functions over the input sequence.
//!
//! Each `sp_` function is the mathematical definition of one grammar rule at
//! a character offset: it either consumes text up to `next`, yielding the
//! rule's denotation, or fails with a kind and an offset. The executable
//! parser is proved to return exactly these results.
//!
//! Failure kinds: `NoMatch` means the rule does not apply at the offset and
//! the dispatcher may try another; the other kinds are fatal.
//! `UnterminatedLiteral` is always reported at the end of the input.

use crate::model::{upsert, ErrorKind, PRes, StrModel, ValModel};
use crate::textpos::{col_of, line_of};
use vstd::prelude::*;

verus! {

// ---------------------------------------------------------------------------
// Character classes
// ---------------------------------------------------------------------------
/// The whitespace accepted around structural delimiters.
pub open spec fn is_ws_char(c: char) -> bool {
    c == ' ' || c == '\t' || c == '\n' || c == '\r'
}

pub open spec fn is_digit(c: char) -> bool {
    '0' as u32 <= c as u32 && c as u32 <= '9' as u32
}

pub open spec fn is_hex_digit(c: char) -> bool {
    is_digit(c) || ('a' as u32 <= c as u32 && c as u32 <= 'f' as u32) || ('A' as u32 <= c as u32
        && c as u32 <= 'F' as u32)
}

/// Numeric value of one hexadecimal digit.
pub open spec fn hex_val(c: char) -> int {
    if is_digit(c) {
        c as u32 - '0' as u32
    } else if 'a' as u32 <= c as u32 && c as u32 <= 'f' as u32 {
        c as u32 - 'a' as u32 + 10
    } else {
        c as u32 - 'A' as u32 + 10
    }
}

// ---------------------------------------------------------------------------
// Whitespace
// ---------------------------------------------------------------------------
/// Offset of the first non-whitespace character at or after `i`.
pub open spec fn sp_ws(s: Seq<char>, i: int) -> int
    decreases s.len() - i,
{
    if 0 <= i < s.len() && is_ws_char(s[i]) {
        sp_ws(s, i + 1)
    } else {
        i
    }
}

pub proof fn lemma_sp_ws_bounds(s: Seq<char>, i: int)
    ensures
        i <= sp_ws(s, i),
        i <= s.len() ==> sp_ws(s, i) <= s.len(),
    decreases s.len() - i,
{
    if 0 <= i < s.len() && is_ws_char(s[i]) {
        lemma_sp_ws_bounds(s, i + 1);
    }
}

// ---------------------------------------------------------------------------
// Numbers and keyword literals
// ---------------------------------------------------------------------------
/// End of the run of digits and `_` separators starting at `i`.
pub open spec fn sp_run(s: Seq<char>, i: int) -> int
    decreases s.len() - i,
{
    if 0 <= i < s.len() && (is_digit(s[i]) || s[i] == '_') {
        sp_run(s, i + 1)
    } else {
        i
    }
}

/// Moves `j` back past trailing `_` separators, but never to `i` or before.
pub open spec fn sp_trim(s: Seq<char>, i: int, j: int) -> int
    decreases j - i,
{
    if i < j - 1 && s[j - 1] == '_' {
        sp_trim(s, i, j - 1)
    } else {
        j
    }
}

/// End of a digit group at `i`: one or more digits, with `_` separators
/// allowed between digits but not leading or trailing. `None` when `i` does
/// not start with a digit.
pub open spec fn sp_decimal(s: Seq<char>, i: int) -> Option<int> {
    if 0 <= i < s.len() && is_digit(s[i]) {
        Some(sp_trim(s, i, sp_run(s, i)))
    } else {
        None
    }
}

pub proof fn lemma_sp_run_bounds(s: Seq<char>, i: int)
    ensures
        i <= sp_run(s, i),
        i <= s.len() ==> sp_run(s, i) <= s.len(),
    decreases s.len() - i,
{
    if 0 <= i < s.len() && (is_digit(s[i]) || s[i] == '_') {
        lemma_sp_run_bounds(s, i + 1);
    }
}

/// End of an exponent at `i`: `e` or `E`, an optional sign, then a digit
/// group.
pub open spec fn sp_exp(s: Seq<char>, i: int) -> Option<int> {
    if 0 <= i < s.len() && (s[i] == 'e' || s[i] == 'E') {
        let j = if i + 1 < s.len() && (s[i + 1] == '+' || s[i + 1] == '-') {
            i + 2
        } else {
            i + 1
        };
        sp_decimal(s, j)
    } else {
        None
    }
}

/// End of a float at `i`. The three accepted forms, tried in this order:
/// `.digits [exp]`; `digits [. digits] exp`; `digits . [digits]`.
pub open spec fn sp_float(s: Seq<char>, i: int) -> Option<int> {
    if 0 <= i < s.len() && s[i] == '.' {
        match sp_decimal(s, i + 1) {
            Some(d) => match sp_exp(s, d) {
                Some(e) => Some(e),
                None => Some(d),
            },
            None => None,
        }
    } else {
        match sp_decimal(s, i) {
            Some(d) => {
                let frac = if d < s.len() && s[d] == '.' {
                    sp_decimal(s, d + 1)
                } else {
                    None
                };
                let b = match frac {
                    Some(f) => f,
                    None => d,
                };
                match sp_exp(s, b) {
                    Some(e) => Some(e),
                    None => if d < s.len() && s[d] == '.' {
                        match sp_decimal(s, d + 1) {
                            Some(f) => Some(f),
                            None => Some(d + 1),
                        }
                    } else {
                        None
                    },
                }
            },
            None => None,
        }
    }
}

/// End of a number at `i`: a float form, or else a plain digit group.
pub open spec fn sp_number(s: Seq<char>, i: int) -> Option<int> {
    match sp_float(s, i) {
        Some(e) => Some(e),
        None => sp_decimal(s, i),
    }
}

pub open spec fn sp_true_at(s: Seq<char>, i: int) -> bool {
    0 <= i && i + 4 <= s.len() && s[i] == 't' && s[i + 1] == 'r' && s[i + 2] == 'u' && s[i + 3]
        == 'e'
}

pub open spec fn sp_false_at(s: Seq<char>, i: int) -> bool {
    0 <= i && i + 5 <= s.len() && s[i] == 'f' && s[i + 1] == 'a' && s[i + 2] == 'l' && s[i + 3]
        == 's' && s[i + 4] == 'e'
}

pub open spec fn sp_null_at(s: Seq<char>, i: int) -> bool {
    0 <= i && i + 4 <= s.len() && s[i] == 'n' && s[i + 1] == 'u' && s[i + 2] == 'l' && s[i + 3]
        == 'l'
}

/// The scalar rule: `true`, `false`, `null`, or a number, yielding the raw
/// matched text. A matched number immediately followed by `.` — or a `.`
/// that starts no float form — is `MalformedNumber`; anything else that
/// applies at `i` is `NoMatch`.
pub open spec fn sp_rest(s: Seq<char>, i: int) -> PRes<Seq<char>> {
    if sp_true_at(s, i) {
        PRes::Parsed { v: s.subrange(i, i + 4), next: i + 4 }
    } else if sp_false_at(s, i) {
        PRes::Parsed { v: s.subrange(i, i + 5), next: i + 5 }
    } else if sp_null_at(s, i) {
        PRes::Parsed { v: s.subrange(i, i + 4), next: i + 4 }
    } else {
        match sp_number(s, i) {
            Some(e) => if e < s.len() && s[e] == '.' {
                PRes::Failed { kind: ErrorKind::MalformedNumber, at: e }
            } else {
                PRes::Parsed { v: s.subrange(i, e), next: e }
            },
            None => if 0 <= i < s.len() && s[i] == '.' {
                PRes::Failed { kind: ErrorKind::MalformedNumber, at: i }
            } else {
                PRes::Failed { kind: ErrorKind::NoMatch, at: i }
            },
        }
    }
}

// ---------------------------------------------------------------------------
// Strings
// ---------------------------------------------------------------------------
/// Four hexadecimal digits at `i`, as a code unit value.
/// Running out of input is `UnterminatedLiteral` at the end of the input; a
/// non-hex character is `InvalidEscape` at that character.
pub open spec fn sp_hex4(s: Seq<char>, i: int) -> PRes<int> {
    if !(0 <= i) || i + 4 > s.len() {
        PRes::Failed { kind: ErrorKind::UnterminatedLiteral, at: s.len() as int }
    } else if !is_hex_digit(s[i]) {
        PRes::Failed { kind: ErrorKind::InvalidEscape, at: i }
    } else if !is_hex_digit(s[i + 1]) {
        PRes::Failed { kind: ErrorKind::InvalidEscape, at: i + 1 }
    } else if !is_hex_digit(s[i + 2]) {
        PRes::Failed { kind: ErrorKind::InvalidEscape, at: i + 2 }
    } else if !is_hex_digit(s[i + 3]) {
        PRes::Failed { kind: ErrorKind::InvalidEscape, at: i + 3 }
    } else {
        PRes::Parsed {
            v: hex_val(s[i]) * 4096 + hex_val(s[i + 1]) * 256 + hex_val(s[i + 2]) * 16 + hex_val(
                s[i + 3],
            ),
            next: i + 4,
        }
    }
}

/// A `\u` escape whose first hex digit sits at `i`: either one code unit
/// outside the surrogate range, or a high surrogate immediately followed by
/// `\u` and a low surrogate, combined into one scalar value. Surrogate
/// mistakes are `InvalidSurrogatePair`, reported at the escape's backslash
/// (offset `i - 2`).
pub open spec fn sp_unicode(s: Seq<char>, i: int) -> PRes<char> {
    match sp_hex4(s, i) {
        PRes::Failed { kind, at } => PRes::Failed { kind, at },
        PRes::Parsed { v: u, .. } => {
            if u < 0xD800 || u >= 0xE000 {
                PRes::Parsed { v: (u as u32) as char, next: i + 4 }
            } else if u >= 0xDC00 {
                PRes::Failed { kind: ErrorKind::InvalidSurrogatePair, at: i - 2 }
            } else {
                let m = i + 4;
                if m + 2 > s.len() || s[m] != '\\' || s[m + 1] != 'u' {
                    PRes::Failed { kind: ErrorKind::InvalidSurrogatePair, at: i - 2 }
                } else {
                    match sp_hex4(s, m + 2) {
                        PRes::Failed { kind, at } => PRes::Failed { kind, at },
                        PRes::Parsed { v: u2, .. } => {
                            if !(0xDC00 <= u2 < 0xE000) {
                                PRes::Failed { kind: ErrorKind::InvalidSurrogatePair, at: i - 2 }
                            } else {
                                PRes::Parsed {
                                    v: ((0x10000 + (u - 0xD800) * 0x400 + (u2 - 0xDC00)) as u32) as char,
                                    next: i + 10,
                                }
                            }
                        },
                    }
                }
            }
        },
    }
}

/// One logical character of a string body at `j`: a plain character, a
/// single-character escape, or a `\u` escape. `j` is not at a closing quote.
pub open spec fn sp_char(s: Seq<char>, j: int) -> PRes<char> {
    if !(0 <= j < s.len()) {
        PRes::Failed { kind: ErrorKind::UnterminatedLiteral, at: s.len() as int }
    } else if s[j] != '\\' {
        PRes::Parsed { v: s[j], next: j + 1 }
    } else if j + 1 >= s.len() {
        PRes::Failed { kind: ErrorKind::UnterminatedLiteral, at: s.len() as int }
    } else {
        let e = s[j + 1];
        if e == '"' || e == '\\' || e == '/' {
            PRes::Parsed { v: e, next: j + 2 }
        } else if e == 'b' {
            PRes::Parsed { v: '\u{0008}', next: j + 2 }
        } else if e == 'f' {
            PRes::Parsed { v: '\u{000C}', next: j + 2 }
        } else if e == 'n' {
            PRes::Parsed { v: '\n', next: j + 2 }
        } else if e == 'r' {
            PRes::Parsed { v: '\r', next: j + 2 }
        } else if e == 't' {
            PRes::Parsed { v: '\t', next: j + 2 }
        } else if e == 'u' {
            sp_unicode(s, j + 2)
        } else {
            PRes::Failed { kind: ErrorKind::InvalidEscape, at: j + 1 }
        }
    }
}

pub proof fn lemma_sp_char_next(s: Seq<char>, j: int)
    ensures
        sp_char(s, j) matches PRes::Parsed { next, .. } ==> j < next <= s.len(),
{
}

/// The decoded body of a string literal from `j` to its closing quote:
/// yields the decoded characters, consuming the closing quote.
pub open spec fn sp_str_body(s: Seq<char>, j: int) -> PRes<Seq<char>>
    decreases s.len() - j,
    via sp_str_body_dec
{
    if !(0 <= j < s.len()) {
        PRes::Failed { kind: ErrorKind::UnterminatedLiteral, at: s.len() as int }
    } else if s[j] == '"' {
        PRes::Parsed { v: Seq::empty(), next: j + 1 }
    } else {
        match sp_char(s, j) {
            PRes::Failed { kind, at } => PRes::Failed { kind, at },
            PRes::Parsed { v: c, next: k } => match sp_str_body(s, k) {
                PRes::Failed { kind, at } => PRes::Failed { kind, at },
                PRes::Parsed { v: tail, next: e } => PRes::Parsed { v: seq![c] + tail, next: e },
            },
        }
    }
}

#[via_fn]
proof fn sp_str_body_dec(s: Seq<char>, j: int) {
    lemma_sp_char_next(s, j);
}

pub proof fn lemma_sp_str_body_next(s: Seq<char>, j: int)
    ensures
        sp_str_body(s, j) matches PRes::Parsed { next, .. } ==> j < next <= s.len(),
    decreases s.len() - j,
{
    if 0 <= j < s.len() && s[j] != '"' {
        lemma_sp_char_next(s, j);
        if let PRes::Parsed { next: k, .. } = sp_char(s, j) {
            lemma_sp_str_body_next(s, k);
        }
    }
}

/// A string literal at `i`: an opening quote, a decoded body, a closing
/// quote. Yields the decoded text together with the span of the whole
/// literal and the line and column of the opening quote.
pub open spec fn sp_string(s: Seq<char>, i: int) -> PRes<StrModel> {
    if !(0 <= i < s.len()) || s[i] != '"' {
        PRes::Failed { kind: ErrorKind::NoMatch, at: i }
    } else {
        match sp_str_body(s, i + 1) {
            PRes::Failed { kind, at } => PRes::Failed { kind, at },
            PRes::Parsed { v, next: e } => PRes::Parsed {
                v: StrModel {
                    value: v,
                    pos: i,
                    end: e,
                    line: line_of(s, i) as int,
                    col: col_of(s, i) as int,
                },
                next: e,
            },
        }
    }
}

pub proof fn lemma_sp_string_next(s: Seq<char>, i: int)
    ensures
        sp_string(s, i) matches PRes::Parsed { next, .. } ==> i < next <= s.len(),
{
    lemma_sp_str_body_next(s, i + 1);
}

// ---------------------------------------------------------------------------
// Values, arrays, objects
// ---------------------------------------------------------------------------
/// Folds object entries in source order, the last write to a key winning.
pub open spec fn dedup_entries(pairs: Seq<(Seq<char>, ValModel)>) -> Seq<(Seq<char>, ValModel)>
    decreases pairs.len(),
{
    if pairs.len() == 0 {
        Seq::empty()
    } else {
        upsert(dedup_entries(pairs.drop_last()), pairs.last().0, pairs.last().1)
    }
}

/// The value rule at `i`: a string, a scalar, an array, or an object, tried
/// in that order; a fatal failure of one alternative aborts the parse.
pub open spec fn sp_value(s: Seq<char>, i: int) -> PRes<ValModel>
    decreases s.len() - i, 3int,
{
    if !(0 <= i <= s.len()) {
        PRes::Failed { kind: ErrorKind::NoMatch, at: i }
    } else {
        match sp_string(s, i) {
            PRes::Parsed { v, next } => PRes::Parsed { v: ValModel::Str(v), next },
            PRes::Failed { kind: ErrorKind::NoMatch, .. } => match sp_rest(s, i) {
                PRes::Parsed { v, next } => PRes::Parsed { v: ValModel::Rest(v), next },
                PRes::Failed { kind: ErrorKind::NoMatch, .. } => match sp_array(s, i) {
                    PRes::Parsed { v, next } => PRes::Parsed { v: ValModel::Array(v), next },
                    PRes::Failed { kind: ErrorKind::NoMatch, .. } => match sp_object(s, i) {
                        PRes::Parsed { v, next } => PRes::Parsed { v: ValModel::Object(v), next },
                        PRes::Failed { kind, at } => PRes::Failed { kind, at },
                    },
                    PRes::Failed { kind, at } => PRes::Failed { kind, at },
                },
                PRes::Failed { kind, at } => PRes::Failed { kind, at },
            },
            PRes::Failed { kind, at } => PRes::Failed { kind, at },
        }
    }
}

/// The array rule at `i`: `[`, whitespace-separated values separated by
/// commas, `]`. Missing `]` at the end of input is `UnterminatedLiteral`.
pub open spec fn sp_array(s: Seq<char>, i: int) -> PRes<Seq<ValModel>>
    decreases s.len() - i, 2int,
    via sp_array_dec
{
    if !(0 <= i < s.len()) || s[i] != '[' {
        PRes::Failed { kind: ErrorKind::NoMatch, at: i }
    } else {
        let j = sp_ws(s, i + 1);
        match sp_list(s, j) {
            PRes::Failed { kind, at } => PRes::Failed { kind, at },
            PRes::Parsed { v: elems, next: k } => {
                let w = sp_ws(s, k);
                if w < s.len() && s[w] == ']' {
                    PRes::Parsed { v: elems, next: w + 1 }
                } else if w >= s.len() {
                    PRes::Failed { kind: ErrorKind::UnterminatedLiteral, at: s.len() as int }
                } else {
                    PRes::Failed { kind: ErrorKind::NoMatch, at: w }
                }
            },
        }
    }
}

#[via_fn]
proof fn sp_array_dec(s: Seq<char>, i: int) {
    lemma_sp_ws_bounds(s, i + 1);
}

/// Zero or more comma-separated values starting exactly at `j`.
pub open spec fn sp_list(s: Seq<char>, j: int) -> PRes<Seq<ValModel>>
    decreases s.len() - j, 4int,
{
    if !(0 <= j <= s.len()) {
        PRes::Failed { kind: ErrorKind::NoMatch, at: j }
    } else {
        match sp_value(s, j) {
            PRes::Failed { kind: ErrorKind::NoMatch, .. } => PRes::Parsed {
                v: Seq::empty(),
                next: j,
            },
            PRes::Failed { kind, at } => PRes::Failed { kind, at },
            PRes::Parsed { v, next: k } => if j < k <= s.len() {
                match sp_list_more(s, k) {
                    PRes::Failed { kind, at } => PRes::Failed { kind, at },
                    PRes::Parsed { v: rest, next: e } => PRes::Parsed { v: seq![v] + rest, next: e },
                }
            } else {
                PRes::Parsed { v: seq![v], next: k }
            },
        }
    }
}

/// Further `, value` groups after an element ending at `k`; a comma not
/// followed by a value ends the list before that comma.
pub open spec fn sp_list_more(s: Seq<char>, k: int) -> PRes<Seq<ValModel>>
    decreases s.len() - k, 4int,
    via sp_list_more_dec
{
    if !(0 <= k <= s.len()) {
        PRes::Failed { kind: ErrorKind::NoMatch, at: k }
    } else {
        let m = sp_ws(s, k);
        if m < s.len() && s[m] == ',' {
            let n = sp_ws(s, m + 1);
            match sp_value(s, n) {
                PRes::Failed { kind: ErrorKind::NoMatch, .. } => PRes::Parsed {
                    v: Seq::empty(),
                    next: k,
                },
                PRes::Failed { kind, at } => PRes::Failed { kind, at },
                PRes::Parsed { v, next: k2 } => if n < k2 <= s.len() {
                    match sp_list_more(s, k2) {
                        PRes::Failed { kind, at } => PRes::Failed { kind, at },
                        PRes::Parsed { v: rest, next: e } => PRes::Parsed {
                            v: seq![v] + rest,
                            next: e,
                        },
                    }
                } else {
                    PRes::Parsed { v: seq![v], next: k2 }
                },
            }
        } else {
            PRes::Parsed { v: Seq::empty(), next: k }
        }
    }
}

#[via_fn]
proof fn sp_list_more_dec(s: Seq<char>, k: int) {
    lemma_sp_ws_bounds(s, k);
    lemma_sp_ws_bounds(s, sp_ws(s, k) + 1);
}

/// The object rule at `i`: `{`, whitespace-separated `key : value` pairs
/// separated by commas, `}`. Keys are decoded string literals whose position
/// metadata is discarded; a repeated key keeps its last value.
pub open spec fn sp_object(s: Seq<char>, i: int) -> PRes<Seq<(Seq<char>, ValModel)>>
    decreases s.len() - i, 2int,
    via sp_object_dec
{
    if !(0 <= i < s.len()) || s[i] != '{' {
        PRes::Failed { kind: ErrorKind::NoMatch, at: i }
    } else {
        let j = sp_ws(s, i + 1);
        match sp_members(s, j) {
            PRes::Failed { kind, at } => PRes::Failed { kind, at },
            PRes::Parsed { v: pairs, next: k } => {
                let w = sp_ws(s, k);
                if w < s.len() && s[w] == '}' {
                    PRes::Parsed { v: dedup_entries(pairs), next: w + 1 }
                } else if w >= s.len() {
                    PRes::Failed { kind: ErrorKind::UnterminatedLiteral, at: s.len() as int }
                } else {
                    PRes::Failed { kind: ErrorKind::NoMatch, at: w }
                }
            },
        }
    }
}

#[via_fn]
proof fn sp_object_dec(s: Seq<char>, i: int) {
    lemma_sp_ws_bounds(s, i + 1);
}

/// One `key : value` pair starting at `j`, then any further pairs. Yields
/// the pairs in source order, duplicates included.
pub open spec fn sp_members(s: Seq<char>, j: int) -> PRes<Seq<(Seq<char>, ValModel)>>
    decreases s.len() - j, 4int,
{
    if !(0 <= j <= s.len()) {
        PRes::Failed { kind: ErrorKind::NoMatch, at: j }
    } else {
        match sp_string(s, j) {
            PRes::Failed { kind: ErrorKind::NoMatch, .. } => PRes::Parsed {
                v: Seq::empty(),
                next: j,
            },
            PRes::Failed { kind, at } => PRes::Failed { kind, at },
            PRes::Parsed { v: key, next: k } => sp_pair_tail(s, j, key.value, k),
        }
    }
}

/// After a key parsed from `j` to `k`: `:`, a value, then any further
/// pairs. Shared by the first pair and by later pairs.
pub open spec fn sp_pair_tail(s: Seq<char>, j: int, key: Seq<char>, k: int) -> PRes<
    Seq<(Seq<char>, ValModel)>,
>
    decreases s.len() - j, 3int,
    via sp_pair_tail_dec
{
    if !(0 <= j < k <= s.len()) {
        PRes::Failed { kind: ErrorKind::NoMatch, at: j }
    } else {
        let w = sp_ws(s, k);
        if w < s.len() && s[w] == ':' {
            let n = sp_ws(s, w + 1);
            match sp_value(s, n) {
                PRes::Failed { kind, at } => PRes::Failed { kind, at },
                PRes::Parsed { v, next: k2 } => if n < k2 <= s.len() {
                    match sp_members_more(s, k2) {
                        PRes::Failed { kind, at } => PRes::Failed { kind, at },
                        PRes::Parsed { v: rest, next: e } => PRes::Parsed {
                            v: seq![(key, v)] + rest,
                            next: e,
                        },
                    }
                } else {
                    PRes::Parsed { v: seq![(key, v)], next: k2 }
                },
            }
        } else if w >= s.len() {
            PRes::Failed { kind: ErrorKind::UnterminatedLiteral, at: s.len() as int }
        } else {
            PRes::Failed { kind: ErrorKind::NoMatch, at: w }
        }
    }
}

#[via_fn]
proof fn sp_pair_tail_dec(s: Seq<char>, j: int, key: Seq<char>, k: int) {
    lemma_sp_ws_bounds(s, k);
    lemma_sp_ws_bounds(s, sp_ws(s, k) + 1);
}

/// Further `, key : value` groups after a pair ending at `k`; a comma not
/// followed by a key ends the member list before that comma.
pub open spec fn sp_members_more(s: Seq<char>, k: int) -> PRes<Seq<(Seq<char>, ValModel)>>
    decreases s.len() - k, 4int,
    via sp_members_more_dec
{
    if !(0 <= k <= s.len()) {
        PRes::Failed { kind: ErrorKind::NoMatch, at: k }
    } else {
        let m = sp_ws(s, k);
        if m < s.len() && s[m] == ',' {
            let n = sp_ws(s, m + 1);
            match sp_string(s, n) {
                PRes::Failed { kind: ErrorKind::NoMatch, .. } => PRes::Parsed {
                    v: Seq::empty(),
                    next: k,
                },
                PRes::Failed { kind, at } => PRes::Failed { kind, at },
                PRes::Parsed { v: key, next: kk } => if n < kk <= s.len() {
                    sp_pair_tail(s, n, key.value, kk)
                } else {
                    PRes::Parsed { v: Seq::empty(), next: k }
                },
            }
        } else {
            PRes::Parsed { v: Seq::empty(), next: k }
        }
    }
}

#[via_fn]
proof fn sp_members_more_dec(s: Seq<char>, k: int) {
    lemma_sp_ws_bounds(s, k);
    lemma_sp_ws_bounds(s, sp_ws(s, k) + 1);
    lemma_sp_string_next(s, sp_ws(s, sp_ws(s, k) + 1));
}

/// The whole-document rule: leading whitespace, one value, trailing
/// whitespace; yields the value and the offset of the unconsumed remainder.
pub open spec fn sp_json(s: Seq<char>) -> PRes<ValModel> {
    let j = sp_ws(s, 0);
    match sp_value(s, j) {
        PRes::Parsed { v, next } => PRes::Parsed { v, next: sp_ws(s, next) },
        PRes::Failed { kind, at } => PRes::Failed { kind, at },
    }
}

} // verus!
