//! The executable parser and its value tree.
//!
//! Every parsing function returns exactly what the corresponding grammar
//! rule in [`crate::grammar`] denotes: the `ensures` of each function states
//! that its result matches the specification function's outcome, success and
//! failure alike.

use crate::grammar::{
    dedup_entries, is_digit, is_hex_digit, is_ws_char, hex_val, sp_array, sp_char, sp_decimal,
    sp_exp, sp_float, sp_hex4, sp_json, sp_list, sp_list_more, sp_members, sp_members_more,
    sp_number, sp_object, sp_pair_tail, sp_rest, sp_run, sp_str_body, sp_string, sp_trim,
    sp_unicode, sp_value, sp_ws, lemma_sp_run_bounds,
};
use crate::model::{
    upsert, ErrorKind, PRes, StrModel, ValModel, lemma_upsert_append, lemma_upsert_update,
};
use crate::textpos::line_col_at;
use vstd::prelude::*;

verus! {

broadcast use vstd::std_specs::vec::group_vec_axioms, vstd::seq::group_seq_axioms;

/// One decoded string literal: the decoded text, the character offsets of its
/// span (`pos` is the opening quote, `end` is just past the closing quote),
/// and the 1-based line and column of the opening quote.
#[derive(Debug, PartialEq, Clone)]
pub struct JsonString {
    pub value: Vec<char>,
    pub pos: usize,
    pub end: usize,
    pub line: usize,
    pub col: usize,
}

/// A parsed JSON value.
///
/// `Rest` holds the raw source text of a number or of `true`/`false`/`null`;
/// `Str` a decoded string literal with its position; `Array` an ordered
/// sequence of values; `Object` entries with unique decoded keys, a repeated
/// source key keeping its last value.
#[derive(Debug, PartialEq)]
pub enum JsonValue {
    Rest(Vec<char>),
    Str(JsonString),
    Array(Vec<JsonValue>),
    Object(Vec<(Vec<char>, JsonValue)>),
}

/// A structured parse failure: its kind and the character offset at which it
/// was detected.
#[derive(Debug, PartialEq, Clone, Copy)]
pub struct ParseFailure {
    pub kind: ErrorKind,
    pub off: usize,
}

impl JsonString {
    /// The ghost denotation of this literal.
    pub open spec fn model(self) -> StrModel {
        StrModel {
            value: self.value@,
            pos: self.pos as int,
            end: self.end as int,
            line: self.line as int,
            col: self.col as int,
        }
    }
}

impl JsonValue {
    /// The ghost denotation of this value tree.
    pub open spec fn model(self) -> ValModel
        decreases self,
    {
        match self {
            JsonValue::Rest(t) => ValModel::Rest(t@),
            JsonValue::Str(n) => ValModel::Str(n.model()),
            JsonValue::Array(v) => ValModel::Array(
                Seq::new(
                    v@.len(),
                    |i: int|
                        if 0 <= i < v@.len() {
                            v@[i].model()
                        } else {
                            ValModel::Rest(Seq::empty())
                        },
                ),
            ),
            JsonValue::Object(v) => ValModel::Object(
                Seq::new(
                    v@.len(),
                    |i: int|
                        if 0 <= i < v@.len() {
                            (v@[i].0@, v@[i].1.model())
                        } else {
                            (Seq::empty(), ValModel::Rest(Seq::empty()))
                        },
                ),
            ),
        }
    }
}

// ---------------------------------------------------------------------------
// What each executable result must denote
// ---------------------------------------------------------------------------
/// Denotation of a sequence of parsed values.
pub open spec fn elems_model(vs: Seq<JsonValue>) -> Seq<ValModel> {
    vs.map_values(|x: JsonValue| x.model())
}

/// Denotation of a sequence of parsed key/value pairs.
pub open spec fn entries_model(vs: Seq<(Vec<char>, JsonValue)>) -> Seq<(Seq<char>, ValModel)> {
    vs.map_values(|p: (Vec<char>, JsonValue)| (p.0@, p.1.model()))
}

pub proof fn lemma_array_model(v: Vec<JsonValue>)
    ensures
        JsonValue::Array(v).model() == ValModel::Array(elems_model(v@)),
{
    let m = JsonValue::Array(v).model();
    assert(m->Array_0 =~= elems_model(v@));
}

pub proof fn lemma_object_model(v: Vec<(Vec<char>, JsonValue)>)
    ensures
        JsonValue::Object(v).model() == ValModel::Object(entries_model(v@)),
{
    let m = JsonValue::Object(v).model();
    assert(m->Object_0 =~= entries_model(v@));
}

pub open spec fn txt_res(r: Result<(Vec<char>, usize), ParseFailure>, sp: PRes<Seq<char>>) -> bool {
    match sp {
        PRes::Parsed { v, next } => r matches Ok(p) && p.0@ == v && p.1 == next,
        PRes::Failed { kind, at } => r matches Err(f) && f.kind == kind && f.off == at,
    }
}

pub open spec fn hex_res(r: Result<(u32, usize), ParseFailure>, sp: PRes<int>) -> bool {
    match sp {
        PRes::Parsed { v, next } => r matches Ok(p) && p.0 == v && p.1 == next,
        PRes::Failed { kind, at } => r matches Err(f) && f.kind == kind && f.off == at,
    }
}

pub open spec fn char_res(r: Result<(char, usize), ParseFailure>, sp: PRes<char>) -> bool {
    match sp {
        PRes::Parsed { v, next } => r matches Ok(p) && p.0 == v && p.1 == next,
        PRes::Failed { kind, at } => r matches Err(f) && f.kind == kind && f.off == at,
    }
}

pub open spec fn str_res(r: Result<(JsonString, usize), ParseFailure>, sp: PRes<StrModel>) -> bool {
    match sp {
        PRes::Parsed { v, next } => r matches Ok(p) && p.0.model() == v && p.1 == next,
        PRes::Failed { kind, at } => r matches Err(f) && f.kind == kind && f.off == at,
    }
}

pub open spec fn val_res(r: Result<(JsonValue, usize), ParseFailure>, sp: PRes<ValModel>) -> bool {
    match sp {
        PRes::Parsed { v, next } => r matches Ok(p) && p.0.model() == v && p.1 == next,
        PRes::Failed { kind, at } => r matches Err(f) && f.kind == kind && f.off == at,
    }
}

pub open spec fn lst_res(
    r: Result<(Vec<JsonValue>, usize), ParseFailure>,
    sp: PRes<Seq<ValModel>>,
) -> bool {
    match sp {
        PRes::Parsed { v, next } => r matches Ok(p) && elems_model(p.0@) == v && p.1 == next,
        PRes::Failed { kind, at } => r matches Err(f) && f.kind == kind && f.off == at,
    }
}

pub open spec fn pairs_res(
    r: Result<(Vec<(Vec<char>, JsonValue)>, usize), ParseFailure>,
    sp: PRes<Seq<(Seq<char>, ValModel)>>,
) -> bool {
    match sp {
        PRes::Parsed { v, next } => r matches Ok(p) && entries_model(p.0@) == v && p.1 == next,
        PRes::Failed { kind, at } => r matches Err(f) && f.kind == kind && f.off == at,
    }
}

// ---------------------------------------------------------------------------
// Character classes and whitespace
// ---------------------------------------------------------------------------
fn is_ws_exec(c: char) -> (r: bool)
    ensures
        r == is_ws_char(c),
{
    c == ' ' || c == '\t' || c == '\n' || c == '\r'
}

fn is_digit_exec(c: char) -> (r: bool)
    ensures
        r == is_digit(c),
{
    let u = c as u32;
    ('0' as u32) <= u && u <= ('9' as u32)
}

/// Skips whitespace, returning the offset of the first other character.
pub fn skip_ws(s: &Vec<char>, i: usize) -> (r: usize)
    requires
        i <= s@.len(),
    ensures
        r == sp_ws(s@, i as int),
        i <= r <= s@.len(),
{
    let mut j = i;
    while j < s.len() && is_ws_exec(s[j])
        invariant
            i <= j <= s@.len(),
            sp_ws(s@, i as int) == sp_ws(s@, j as int),
        decreases s@.len() - j,
    {
        j = j + 1;
    }
    j
}

/// Copies the characters of `s` from `i` to `e`.
pub fn copy_range(s: &Vec<char>, i: usize, e: usize) -> (r: Vec<char>)
    requires
        i <= e <= s@.len(),
    ensures
        r@ == s@.subrange(i as int, e as int),
{
    let mut out: Vec<char> = Vec::new();
    let mut j = i;
    while j < e
        invariant
            i <= j <= e <= s@.len(),
            out@ =~= s@.subrange(i as int, j as int),
        decreases e - j,
    {
        out.push(s[j]);
        j = j + 1;
        proof {
            assert(out@ =~= s@.subrange(i as int, j as int));
        }
    }
    proof {
        assert(out@ =~= s@.subrange(i as int, e as int));
    }
    out
}

// ---------------------------------------------------------------------------
// Numbers and keyword literals
// ---------------------------------------------------------------------------
fn run_end(s: &Vec<char>, i: usize) -> (r: usize)
    requires
        i <= s@.len(),
    ensures
        r == sp_run(s@, i as int),
        i <= r <= s@.len(),
{
    let mut j = i;
    while j < s.len() && (is_digit_exec(s[j]) || s[j] == '_')
        invariant
            i <= j <= s@.len(),
            sp_run(s@, i as int) == sp_run(s@, j as int),
        decreases s@.len() - j,
    {
        j = j + 1;
    }
    j
}

fn trim_end(s: &Vec<char>, i: usize, j: usize) -> (r: usize)
    requires
        i < j <= s@.len(),
    ensures
        r == sp_trim(s@, i as int, j as int),
        i < r <= j,
{
    let mut k = j;
    while k > i + 1 && s[k - 1] == '_'
        invariant
            i < k <= j <= s@.len(),
            sp_trim(s@, i as int, j as int) == sp_trim(s@, i as int, k as int),
        decreases k,
    {
        k = k - 1;
    }
    k
}

/// End of a digit group at `i`, if one starts there.
pub fn decimal(s: &Vec<char>, i: usize) -> (r: Option<usize>)
    requires
        i <= s@.len(),
    ensures
        match sp_decimal(s@, i as int) {
            Some(e) => r matches Some(u) && u == e,
            None => r is None,
        },
        r matches Some(u) ==> i < u <= s@.len(),
{
    if i < s.len() && is_digit_exec(s[i]) {
        let rn = run_end(s, i);
        proof {
            lemma_sp_run_bounds(s@, i as int + 1);
            assert(sp_run(s@, i as int) == sp_run(s@, i as int + 1));
        }
        let e = trim_end(s, i, rn);
        Some(e)
    } else {
        None
    }
}

/// End of an exponent at `i`, if one starts there.
pub fn exponent(s: &Vec<char>, i: usize) -> (r: Option<usize>)
    requires
        i <= s@.len(),
        s@.len() < usize::MAX,
    ensures
        match sp_exp(s@, i as int) {
            Some(e) => r matches Some(u) && u == e,
            None => r is None,
        },
        r matches Some(u) ==> i < u <= s@.len(),
{
    if i < s.len() && (s[i] == 'e' || s[i] == 'E') {
        let j = if i + 1 < s.len() && (s[i + 1] == '+' || s[i + 1] == '-') {
            i + 2
        } else {
            i + 1
        };
        decimal(s, j)
    } else {
        None
    }
}

/// End of a float at `i`, if one of the three float forms starts there.
pub fn float(s: &Vec<char>, i: usize) -> (r: Option<usize>)
    requires
        i <= s@.len(),
        s@.len() < usize::MAX,
    ensures
        match sp_float(s@, i as int) {
            Some(e) => r matches Some(u) && u == e,
            None => r is None,
        },
        r matches Some(u) ==> i < u <= s@.len(),
{
    if i < s.len() && s[i] == '.' {
        match decimal(s, i + 1) {
            Some(d) => match exponent(s, d) {
                Some(e) => Some(e),
                None => Some(d),
            },
            None => None,
        }
    } else {
        match decimal(s, i) {
            Some(d) => {
                let frac = if d < s.len() && s[d] == '.' {
                    decimal(s, d + 1)
                } else {
                    None
                };
                let b = match frac {
                    Some(f) => f,
                    None => d,
                };
                match exponent(s, b) {
                    Some(e) => Some(e),
                    None => {
                        if d < s.len() && s[d] == '.' {
                            match decimal(s, d + 1) {
                                Some(f) => Some(f),
                                None => Some(d + 1),
                            }
                        } else {
                            None
                        }
                    },
                }
            },
            None => None,
        }
    }
}

/// End of a number at `i`, if a float form or a digit group starts there.
pub fn number(s: &Vec<char>, i: usize) -> (r: Option<usize>)
    requires
        i <= s@.len(),
        s@.len() < usize::MAX,
    ensures
        match sp_number(s@, i as int) {
            Some(e) => r matches Some(u) && u == e,
            None => r is None,
        },
        r matches Some(u) ==> i < u <= s@.len(),
{
    match float(s, i) {
        Some(e) => Some(e),
        None => decimal(s, i),
    }
}

/// The scalar rule: `true`, `false`, `null`, or a number, as raw text.
pub fn parse_rest(s: &Vec<char>, i: usize) -> (r: Result<(Vec<char>, usize), ParseFailure>)
    requires
        i <= s@.len(),
        s@.len() < usize::MAX,
    ensures
        txt_res(r, sp_rest(s@, i as int)),
        r matches Ok(p) ==> i < p.1 <= s@.len(),
{
    if s.len() - i >= 4 && s[i] == 't' && s[i + 1] == 'r' && s[i + 2] == 'u' && s[i + 3] == 'e' {
        Ok((copy_range(s, i, i + 4), i + 4))
    } else if s.len() - i >= 5 && s[i] == 'f' && s[i + 1] == 'a' && s[i + 2] == 'l' && s[i + 3]
        == 's' && s[i + 4] == 'e' {
        Ok((copy_range(s, i, i + 5), i + 5))
    } else if s.len() - i >= 4 && s[i] == 'n' && s[i + 1] == 'u' && s[i + 2] == 'l' && s[i + 3]
        == 'l' {
        Ok((copy_range(s, i, i + 4), i + 4))
    } else {
        match number(s, i) {
            Some(e) => {
                if e < s.len() && s[e] == '.' {
                    Err(ParseFailure { kind: ErrorKind::MalformedNumber, off: e })
                } else {
                    Ok((copy_range(s, i, e), e))
                }
            },
            None => {
                if i < s.len() && s[i] == '.' {
                    Err(ParseFailure { kind: ErrorKind::MalformedNumber, off: i })
                } else {
                    Err(ParseFailure { kind: ErrorKind::NoMatch, off: i })
                }
            },
        }
    }
}

// ---------------------------------------------------------------------------
// Strings
// ---------------------------------------------------------------------------
/// Relies on char::from_u32: it returns `Some` exactly for Unicode scalar
/// values (below the surrogate range, or from U+E000 up to U+10FFFF), and the
/// returned character's code point is the argument.
#[verifier::external_body]
fn char_from_u32(u: u32) -> (r: Option<char>)
    ensures
        r is Some <==> (u < 0xD800 || (0xE000 <= u && u < 0x110000)),
        r matches Some(c) ==> c as u32 == u,
{
    char::from_u32(u)
}

fn hex_digit_val(c: char) -> (r: Option<u32>)
    ensures
        is_hex_digit(c) ==> (r matches Some(v) && v == hex_val(c) && v < 16),
        !is_hex_digit(c) ==> r is None,
{
    let u = c as u32;
    if ('0' as u32) <= u && u <= ('9' as u32) {
        Some(u - ('0' as u32))
    } else if ('a' as u32) <= u && u <= ('f' as u32) {
        Some(u - ('a' as u32) + 10)
    } else if ('A' as u32) <= u && u <= ('F' as u32) {
        Some(u - ('A' as u32) + 10)
    } else {
        None
    }
}

/// Four hexadecimal digits at `i`, as a code unit value.
pub fn u16_hex(s: &Vec<char>, i: usize) -> (r: Result<(u32, usize), ParseFailure>)
    requires
        i <= s@.len(),
        s@.len() < usize::MAX,
    ensures
        hex_res(r, sp_hex4(s@, i as int)),
        r matches Ok(p) ==> p.1 == i + 4 && i + 4 <= s@.len() && p.0 < 0x10000,
{
    if s.len() - i < 4 {
        return Err(ParseFailure { kind: ErrorKind::UnterminatedLiteral, off: s.len() });
    }
    let a = match hex_digit_val(s[i]) {
        Some(v) => v,
        None => {
            return Err(ParseFailure { kind: ErrorKind::InvalidEscape, off: i });
        },
    };
    let b = match hex_digit_val(s[i + 1]) {
        Some(v) => v,
        None => {
            return Err(ParseFailure { kind: ErrorKind::InvalidEscape, off: i + 1 });
        },
    };
    let c = match hex_digit_val(s[i + 2]) {
        Some(v) => v,
        None => {
            return Err(ParseFailure { kind: ErrorKind::InvalidEscape, off: i + 2 });
        },
    };
    let d = match hex_digit_val(s[i + 3]) {
        Some(v) => v,
        None => {
            return Err(ParseFailure { kind: ErrorKind::InvalidEscape, off: i + 3 });
        },
    };
    Ok((a * 4096 + b * 256 + c * 16 + d, i + 4))
}

/// A `\u` escape whose first hex digit sits at `i` (so `i` is at least 2):
/// one code unit outside the surrogate range, or a surrogate pair combined
/// into one scalar value.
pub fn unicode_escape(s: &Vec<char>, i: usize) -> (r: Result<(char, usize), ParseFailure>)
    requires
        2 <= i <= s@.len(),
        s@.len() < usize::MAX,
    ensures
        char_res(r, sp_unicode(s@, i as int)),
        r matches Ok(p) ==> i < p.1 <= s@.len(),
{
    let (u, n) = match u16_hex(s, i) {
        Ok(p) => p,
        Err(f) => {
            return Err(f);
        },
    };
    if u < 0xD800 || u >= 0xE000 {
        match char_from_u32(u) {
            Some(c) => {
                proof {
                    vstd::utf8::char_u32_cast(c, u);
                }
                Ok((c, n))
            },
            None => {
                proof {
                    assert(false);
                }
                Err(ParseFailure { kind: ErrorKind::NoMatch, off: i })
            },
        }
    } else if u >= 0xDC00 {
        Err(ParseFailure { kind: ErrorKind::InvalidSurrogatePair, off: i - 2 })
    } else {
        if s.len() - n < 2 || s[n] != '\\' || s[n + 1] != 'u' {
            return Err(ParseFailure { kind: ErrorKind::InvalidSurrogatePair, off: i - 2 });
        }
        let (u2, n2) = match u16_hex(s, n + 2) {
            Ok(p) => p,
            Err(f) => {
                return Err(f);
            },
        };
        if !(0xDC00 <= u2 && u2 < 0xE000) {
            return Err(ParseFailure { kind: ErrorKind::InvalidSurrogatePair, off: i - 2 });
        }
        let cp = 0x10000 + (u - 0xD800) * 0x400 + (u2 - 0xDC00);
        match char_from_u32(cp) {
            Some(c) => {
                proof {
                    vstd::utf8::char_u32_cast(c, cp);
                }
                Ok((c, n2))
            },
            None => {
                proof {
                    assert(false);
                }
                Err(ParseFailure { kind: ErrorKind::NoMatch, off: i })
            },
        }
    }
}

/// One logical character of a string body at `j`: a plain character, a
/// single-character escape, or a `\u` escape.
pub fn character(s: &Vec<char>, j: usize) -> (r: Result<(char, usize), ParseFailure>)
    requires
        j <= s@.len(),
        s@.len() < usize::MAX,
    ensures
        char_res(r, sp_char(s@, j as int)),
        r matches Ok(p) ==> j < p.1 <= s@.len(),
{
    if j >= s.len() {
        Err(ParseFailure { kind: ErrorKind::UnterminatedLiteral, off: s.len() })
    } else if s[j] != '\\' {
        Ok((s[j], j + 1))
    } else if j + 1 >= s.len() {
        Err(ParseFailure { kind: ErrorKind::UnterminatedLiteral, off: s.len() })
    } else {
        let e = s[j + 1];
        if e == '"' || e == '\\' || e == '/' {
            Ok((e, j + 2))
        } else if e == 'b' {
            Ok(('\u{0008}', j + 2))
        } else if e == 'f' {
            Ok(('\u{000C}', j + 2))
        } else if e == 'n' {
            Ok(('\n', j + 2))
        } else if e == 'r' {
            Ok(('\r', j + 2))
        } else if e == 't' {
            Ok(('\t', j + 2))
        } else if e == 'u' {
            unicode_escape(s, j + 2)
        } else {
            Err(ParseFailure { kind: ErrorKind::InvalidEscape, off: j + 1 })
        }
    }
}

/// The decoded body of a string literal from `j`, consuming the closing
/// quote.
pub fn string_body(s: &Vec<char>, j: usize) -> (r: Result<(Vec<char>, usize), ParseFailure>)
    requires
        j <= s@.len(),
        s@.len() < usize::MAX,
    ensures
        txt_res(r, sp_str_body(s@, j as int)),
        r matches Ok(p) ==> j < p.1 <= s@.len(),
    decreases s@.len() - j,
{
    if j >= s.len() {
        Err(ParseFailure { kind: ErrorKind::UnterminatedLiteral, off: s.len() })
    } else if s[j] == '"' {
        let out: Vec<char> = Vec::new();
        proof {
            assert(out@ =~= Seq::<char>::empty());
        }
        Ok((out, j + 1))
    } else {
        match character(s, j) {
            Err(f) => Err(f),
            Ok((c, k)) => match string_body(s, k) {
                Err(f) => Err(f),
                Ok((mut tail, e)) => {
                    let ghost t0 = tail@;
                    tail.insert(0, c);
                    proof {
                        assert(tail@ =~= seq![c] + t0);
                    }
                    Ok((tail, e))
                },
            },
        }
    }
}

/// A string literal at `i`: yields the decoded text with the span of the
/// literal and the line and column of its opening quote.
pub fn string(s: &Vec<char>, i: usize) -> (r: Result<(JsonString, usize), ParseFailure>)
    requires
        i <= s@.len(),
        s@.len() < usize::MAX,
    ensures
        str_res(r, sp_string(s@, i as int)),
        r matches Ok(p) ==> i < p.1 <= s@.len(),
{
    if i >= s.len() || s[i] != '"' {
        return Err(ParseFailure { kind: ErrorKind::NoMatch, off: i });
    }
    match string_body(s, i + 1) {
        Err(f) => Err(f),
        Ok((v, e)) => {
            let (line, col) = line_col_at(s, i);
            Ok((JsonString { value: v, pos: i, end: e, line, col }, e))
        },
    }
}

// ---------------------------------------------------------------------------
// Objects' last-write-wins bookkeeping
// ---------------------------------------------------------------------------
/// Whether two character vectors hold the same text.
pub fn chars_eq(a: &Vec<char>, b: &Vec<char>) -> (r: bool)
    ensures
        r == (a@ == b@),
{
    if a.len() != b.len() {
        return false;
    }
    let mut q: usize = 0;
    while q < a.len()
        invariant
            q <= a@.len(),
            a@.len() == b@.len(),
            forall|t: int| 0 <= t < q ==> a@[t] == b@[t],
        decreases a@.len() - q,
    {
        if a[q] != b[q] {
            return false;
        }
        q = q + 1;
    }
    proof {
        assert(a@ =~= b@);
    }
    true
}

/// Binds `key` to `val` among the entries: replaces the value of the entry
/// with that key, or appends a new entry.
fn upsert_into(out: &mut Vec<(Vec<char>, JsonValue)>, key: Vec<char>, val: JsonValue)
    ensures
        entries_model(final(out)@) == upsert(entries_model(old(out)@), key@, val.model()),
{
    let ghost es0 = entries_model(out@);
    proof {
        assert(es0 == entries_model(old(out)@));
    }
    let mut idx: usize = 0;
    while idx < out.len()
        invariant
            idx <= out@.len(),
            entries_model(out@) == es0,
            entries_model(old(out)@) == es0,
            out@.len() == es0.len(),
            forall|q: int| 0 <= q < idx ==> (#[trigger] es0[q]).0 != key@,
        decreases out@.len() - idx,
    {
        proof {
            assert(es0[idx as int] == (out@[idx as int].0@, out@[idx as int].1.model()));
        }
        if chars_eq(&out[idx].0, &key) {
            let ghost km = key@;
            let ghost vm = val.model();
            let ghost o0 = out@;
            let ghost kv = (key, val);
            let _ = out.remove(idx);
            out.insert(idx, (key, val));
            proof {
                assert(out@ =~= o0.update(idx as int, kv));
                let target = es0.update(idx as int, (km, vm));
                assert forall|q: int| 0 <= q < out@.len() implies entries_model(out@)[q]
                    == target[q] by {
                    if q != idx {
                        assert(out@[q] == o0[q]);
                        assert(entries_model(o0)[q] == es0[q]);
                    }
                }
                assert(entries_model(out@) =~= target);
                lemma_upsert_update(es0, km, vm, idx as int);
            }
            return;
        }
        idx = idx + 1;
    }
    let ghost km = key@;
    let ghost vm = val.model();
    let ghost o0 = out@;
    let ghost kv = (key, val);
    out.push((key, val));
    proof {
        let target = es0.push((km, vm));
        assert forall|q: int| 0 <= q < out@.len() implies entries_model(out@)[q] == target[q] by {
            if q < o0.len() {
                assert(out@[q] == o0[q]);
                assert(entries_model(o0)[q] == es0[q]);
            } else {
                assert(out@[q] == kv);
            }
        }
        assert(entries_model(out@) =~= target);
        lemma_upsert_append(es0, km, vm);
    }
}

/// Folds key/value pairs in source order into entries with unique keys, the
/// last write to a key winning.
pub fn dedup_pairs(pairs: Vec<(Vec<char>, JsonValue)>) -> (r: Vec<(Vec<char>, JsonValue)>)
    ensures
        entries_model(r@) == dedup_entries(entries_model(pairs@)),
{
    let ghost pm = entries_model(pairs@);
    let mut rest = pairs;
    let mut out: Vec<(Vec<char>, JsonValue)> = Vec::new();
    proof {
        assert(pm.take(0) =~= Seq::<(Seq<char>, ValModel)>::empty());
        assert(entries_model(out@) =~= Seq::<(Seq<char>, ValModel)>::empty());
    }
    while rest.len() > 0
        invariant
            rest@.len() <= pm.len(),
            entries_model(rest@) =~= pm.skip(pm.len() - rest@.len()),
            entries_model(out@) == dedup_entries(pm.take(pm.len() - rest@.len())),
        decreases rest@.len(),
    {
        let ghost done = pm.len() - rest@.len();
        let ghost r0 = rest@;
        let p = rest.remove(0);
        proof {
            assert(entries_model(r0) == pm.skip(done));
            assert(entries_model(r0)[0] == (r0[0].0@, r0[0].1.model()));
            assert(pm.skip(done)[0] == pm[done]);
            assert((p.0@, p.1.model()) == pm[done]);
            assert forall|q: int| 0 <= q < rest@.len() implies entries_model(rest@)[q] == pm.skip(
                done + 1,
            )[q] by {
                assert(rest@[q] == r0[q + 1]);
                assert(entries_model(r0)[q + 1] == pm.skip(done)[q + 1]);
                assert(pm.skip(done)[q + 1] == pm[done + 1 + q]);
                assert(pm.skip(done + 1)[q] == pm[done + 1 + q]);
            }
            assert(entries_model(rest@) =~= pm.skip(done + 1));
        }
        upsert_into(&mut out, p.0, p.1);
        proof {
            assert(pm.take(done + 1).drop_last() =~= pm.take(done));
            assert(pm.take(done + 1).last() == pm[done]);
        }
    }
    proof {
        assert(pm.take(pm.len() as int) =~= pm);
    }
    out
}

// ---------------------------------------------------------------------------
// Values, arrays, objects
// ---------------------------------------------------------------------------
/// The value rule at `i`: a string, a scalar, an array, or an object, tried
/// in that order.
pub fn json_value(s: &Vec<char>, i: usize) -> (r: Result<(JsonValue, usize), ParseFailure>)
    requires
        i <= s@.len(),
        s@.len() < usize::MAX,
    ensures
        val_res(r, sp_value(s@, i as int)),
        r matches Ok(p) ==> i < p.1 <= s@.len(),
    decreases s@.len() - i, 3int,
{
    match string(s, i) {
        Ok((js, n)) => Ok((JsonValue::Str(js), n)),
        Err(f) => {
            if f.kind != ErrorKind::NoMatch {
                return Err(f);
            }
            match parse_rest(s, i) {
                Ok((t, n)) => Ok((JsonValue::Rest(t), n)),
                Err(f2) => {
                    if f2.kind != ErrorKind::NoMatch {
                        return Err(f2);
                    }
                    match array(s, i) {
                        Ok((vs, n)) => {
                            proof {
                                lemma_array_model(vs);
                            }
                            Ok((JsonValue::Array(vs), n))
                        },
                        Err(f3) => {
                            if f3.kind != ErrorKind::NoMatch {
                                return Err(f3);
                            }
                            match object(s, i) {
                                Ok((es, n)) => {
                                    proof {
                                        lemma_object_model(es);
                                    }
                                    Ok((JsonValue::Object(es), n))
                                },
                                Err(f4) => Err(f4),
                            }
                        },
                    }
                },
            }
        },
    }
}

/// The array rule at `i`.
pub fn array(s: &Vec<char>, i: usize) -> (r: Result<(Vec<JsonValue>, usize), ParseFailure>)
    requires
        i <= s@.len(),
        s@.len() < usize::MAX,
    ensures
        lst_res(r, sp_array(s@, i as int)),
        r matches Ok(p) ==> i < p.1 <= s@.len(),
    decreases s@.len() - i, 2int,
{
    if i >= s.len() || s[i] != '[' {
        return Err(ParseFailure { kind: ErrorKind::NoMatch, off: i });
    }
    let j = skip_ws(s, i + 1);
    match list(s, j) {
        Err(f) => Err(f),
        Ok((elems, k)) => {
            let w = skip_ws(s, k);
            if w < s.len() && s[w] == ']' {
                Ok((elems, w + 1))
            } else if w >= s.len() {
                Err(ParseFailure { kind: ErrorKind::UnterminatedLiteral, off: s.len() })
            } else {
                Err(ParseFailure { kind: ErrorKind::NoMatch, off: w })
            }
        },
    }
}

/// Zero or more comma-separated values starting exactly at `j`.
pub fn list(s: &Vec<char>, j: usize) -> (r: Result<(Vec<JsonValue>, usize), ParseFailure>)
    requires
        j <= s@.len(),
        s@.len() < usize::MAX,
    ensures
        lst_res(r, sp_list(s@, j as int)),
        r matches Ok(p) ==> j <= p.1 <= s@.len(),
    decreases s@.len() - j, 4int,
{
    match json_value(s, j) {
        Err(f) => {
            if f.kind == ErrorKind::NoMatch {
                let out: Vec<JsonValue> = Vec::new();
                proof {
                    assert(elems_model(out@) =~= Seq::<ValModel>::empty());
                }
                Ok((out, j))
            } else {
                Err(f)
            }
        },
        Ok((v, k)) => match list_more(s, k) {
            Err(f) => Err(f),
            Ok((mut rest, e)) => {
                let ghost t0 = rest@;
                let ghost vm = v.model();
                rest.insert(0, v);
                proof {
                    assert(elems_model(rest@) =~= seq![vm] + elems_model(t0));
                }
                Ok((rest, e))
            },
        },
    }
}

/// Further `, value` groups after an element ending at `k`.
pub fn list_more(s: &Vec<char>, k: usize) -> (r: Result<(Vec<JsonValue>, usize), ParseFailure>)
    requires
        k <= s@.len(),
        s@.len() < usize::MAX,
    ensures
        lst_res(r, sp_list_more(s@, k as int)),
        r matches Ok(p) ==> k <= p.1 <= s@.len(),
    decreases s@.len() - k, 4int,
{
    let m = skip_ws(s, k);
    if m < s.len() && s[m] == ',' {
        let n = skip_ws(s, m + 1);
        match json_value(s, n) {
            Err(f) => {
                if f.kind == ErrorKind::NoMatch {
                    let out: Vec<JsonValue> = Vec::new();
                    proof {
                        assert(elems_model(out@) =~= Seq::<ValModel>::empty());
                    }
                    Ok((out, k))
                } else {
                    Err(f)
                }
            },
            Ok((v, k2)) => match list_more(s, k2) {
                Err(f) => Err(f),
                Ok((mut rest, e)) => {
                    let ghost t0 = rest@;
                    let ghost vm = v.model();
                    rest.insert(0, v);
                    proof {
                        assert(elems_model(rest@) =~= seq![vm] + elems_model(t0));
                    }
                    Ok((rest, e))
                },
            },
        }
    } else {
        let out: Vec<JsonValue> = Vec::new();
        proof {
            assert(elems_model(out@) =~= Seq::<ValModel>::empty());
        }
        Ok((out, k))
    }
}

/// The object rule at `i`.
pub fn object(
    s: &Vec<char>,
    i: usize,
) -> (r: Result<(Vec<(Vec<char>, JsonValue)>, usize), ParseFailure>)
    requires
        i <= s@.len(),
        s@.len() < usize::MAX,
    ensures
        pairs_res(r, sp_object(s@, i as int)),
        r matches Ok(p) ==> i < p.1 <= s@.len(),
    decreases s@.len() - i, 2int,
{
    if i >= s.len() || s[i] != '{' {
        return Err(ParseFailure { kind: ErrorKind::NoMatch, off: i });
    }
    let j = skip_ws(s, i + 1);
    match members(s, j) {
        Err(f) => Err(f),
        Ok((pairs, k)) => {
            let w = skip_ws(s, k);
            if w < s.len() && s[w] == '}' {
                let entries = dedup_pairs(pairs);
                Ok((entries, w + 1))
            } else if w >= s.len() {
                Err(ParseFailure { kind: ErrorKind::UnterminatedLiteral, off: s.len() })
            } else {
                Err(ParseFailure { kind: ErrorKind::NoMatch, off: w })
            }
        },
    }
}

/// One `key : value` pair starting at `j`, then any further pairs, in source
/// order.
pub fn members(
    s: &Vec<char>,
    j: usize,
) -> (r: Result<(Vec<(Vec<char>, JsonValue)>, usize), ParseFailure>)
    requires
        j <= s@.len(),
        s@.len() < usize::MAX,
    ensures
        pairs_res(r, sp_members(s@, j as int)),
        r matches Ok(p) ==> j <= p.1 <= s@.len(),
    decreases s@.len() - j, 4int,
{
    match string(s, j) {
        Err(f) => {
            if f.kind == ErrorKind::NoMatch {
                let out: Vec<(Vec<char>, JsonValue)> = Vec::new();
                proof {
                    assert(entries_model(out@) =~= Seq::<(Seq<char>, ValModel)>::empty());
                }
                Ok((out, j))
            } else {
                Err(f)
            }
        },
        Ok((js, k)) => pair_tail(s, j, js.value, k),
    }
}

/// After a key parsed from `j` to `k`: `:`, a value, then any further pairs.
pub fn pair_tail(
    s: &Vec<char>,
    j: usize,
    key: Vec<char>,
    k: usize,
) -> (r: Result<(Vec<(Vec<char>, JsonValue)>, usize), ParseFailure>)
    requires
        j < k <= s@.len(),
        s@.len() < usize::MAX,
    ensures
        pairs_res(r, sp_pair_tail(s@, j as int, key@, k as int)),
        r matches Ok(p) ==> j < p.1 <= s@.len(),
    decreases s@.len() - j, 3int,
{
    let w = skip_ws(s, k);
    if w < s.len() && s[w] == ':' {
        let n = skip_ws(s, w + 1);
        match json_value(s, n) {
            Err(f) => Err(f),
            Ok((v, k2)) => match members_more(s, k2) {
                Err(f) => Err(f),
                Ok((mut rest, e)) => {
                    let ghost t0 = rest@;
                    let ghost km = key@;
                    let ghost vm = v.model();
                    rest.insert(0, (key, v));
                    proof {
                        assert(entries_model(rest@) =~= seq![(km, vm)] + entries_model(t0));
                    }
                    Ok((rest, e))
                },
            },
        }
    } else if w >= s.len() {
        Err(ParseFailure { kind: ErrorKind::UnterminatedLiteral, off: s.len() })
    } else {
        Err(ParseFailure { kind: ErrorKind::NoMatch, off: w })
    }
}

/// Further `, key : value` groups after a pair ending at `k`.
pub fn members_more(
    s: &Vec<char>,
    k: usize,
) -> (r: Result<(Vec<(Vec<char>, JsonValue)>, usize), ParseFailure>)
    requires
        k <= s@.len(),
        s@.len() < usize::MAX,
    ensures
        pairs_res(r, sp_members_more(s@, k as int)),
        r matches Ok(p) ==> k <= p.1 <= s@.len(),
    decreases s@.len() - k, 4int,
{
    let m = skip_ws(s, k);
    if m < s.len() && s[m] == ',' {
        let n = skip_ws(s, m + 1);
        match string(s, n) {
            Err(f) => {
                if f.kind == ErrorKind::NoMatch {
                    let out: Vec<(Vec<char>, JsonValue)> = Vec::new();
                    proof {
                        assert(entries_model(out@) =~= Seq::<(Seq<char>, ValModel)>::empty());
                    }
                    Ok((out, k))
                } else {
                    Err(f)
                }
            },
            Ok((js, kk)) => pair_tail(s, n, js.value, kk),
        }
    } else {
        let out: Vec<(Vec<char>, JsonValue)> = Vec::new();
        proof {
            assert(entries_model(out@) =~= Seq::<(Seq<char>, ValModel)>::empty());
        }
        Ok((out, k))
    }
}

// ---------------------------------------------------------------------------
// Entry point
// ---------------------------------------------------------------------------
/// Relies on str::chars: it yields exactly the characters of the string, in
/// order. The vector stays under `usize::MAX` elements, since a vector of
/// 4-byte items never holds more than `isize::MAX` bytes.
#[verifier::external_body]
fn chars_of(s: &str) -> (r: Vec<char>)
    ensures
        r@ == s@,
        r@.len() < usize::MAX,
{
    s.chars().collect()
}

/// Parses a whole document: leading whitespace, one JSON value, trailing
/// whitespace. On success, returns the value and the character offset of the
/// unconsumed remainder; on failure, the failure kind and the offset at
/// which it was detected.
pub fn json(i: &str) -> (r: Result<(JsonValue, usize), ParseFailure>)
    ensures
        val_res(r, sp_json(i@)),
        r matches Ok(p) ==> p.1 <= i@.len(),
        r matches Ok(p) ==> crate::laws::tree_ok(i@, p.0.model()),
        r matches Err(f) ==> (f.kind == ErrorKind::UnterminatedLiteral ==> f.off == i@.len()),
{
    let s = chars_of(i);
    proof {
        crate::laws::lemma_parse_spans(i@);
        crate::laws::lemma_unterminated_at_end(i@);
    }
    let j = skip_ws(&s, 0);
    match json_value(&s, j) {
        Ok((v, k)) => {
            let e = skip_ws(&s, k);
            Ok((v, e))
        },
        Err(f) => Err(f),
    }
}

} // verus!
