//! The laws the parser obeys, proved over the grammar's specification
//! functions: plain text decodes to itself, an object's keys stay unique with
//! the last write to a key winning, a missing closing delimiter is reported
//! at the end of the input, and every string node in a parse result records
//! the exact span and the line and column of its literal.

use crate::grammar::{
    dedup_entries, hex_val, is_digit, is_hex_digit, lemma_sp_char_next, lemma_sp_str_body_next,
    lemma_sp_ws_bounds, sp_array, sp_char, sp_hex4, sp_json, sp_list, sp_list_more, sp_members,
    sp_members_more, sp_object, sp_pair_tail, sp_rest, sp_str_body, sp_string, sp_value, sp_ws,
};
use crate::model::{
    keys_unique, lookup, ErrorKind, PRes, StrModel, ValModel, lemma_upsert_entries,
    lemma_upsert_lookup, lemma_upsert_unique,
};
use crate::textpos::{col_of, line_of};
use vstd::prelude::*;

verus! {

broadcast use vstd::seq::group_seq_axioms;

/// A printable ASCII character that needs no escaping in a string literal.
pub open spec fn is_plain_ascii(c: char) -> bool {
    0x20 <= c as u32 && c as u32 <= 0x7E && c != '"' && c != '\\'
}

/// Decoding is the identity on escape-free text: a string body of printable
/// ASCII characters without quotes or backslashes decodes to exactly that
/// text, ending at the closing quote.
pub proof fn lemma_plain_body(s: Seq<char>, j: int, e: int)
    requires
        0 <= j <= e < s.len(),
        s[e] == '"',
        forall|q: int| j <= q < e ==> is_plain_ascii(#[trigger] s[q]),
    ensures
        sp_str_body(s, j) == (PRes::Parsed { v: s.subrange(j, e), next: e + 1 }),
    decreases e - j,
{
    if j == e {
        assert(s.subrange(j, e) =~= Seq::<char>::empty());
    } else {
        assert(is_plain_ascii(s[j]));
        lemma_plain_body(s, j + 1, e);
        assert(seq![s[j]] + s.subrange(j + 1, e) =~= s.subrange(j, e));
    }
}

/// The string rule on an escape-free literal: the decoded value is the inner
/// text verbatim, and the span runs from the opening to just past the
/// closing quote.
pub proof fn lemma_plain_string(s: Seq<char>, i: int, e: int)
    requires
        0 <= i < e < s.len(),
        s[i] == '"',
        s[e] == '"',
        forall|q: int| i < q < e ==> is_plain_ascii(#[trigger] s[q]),
    ensures
        sp_string(s, i) == (PRes::Parsed {
            v: StrModel {
                value: s.subrange(i + 1, e),
                pos: i,
                end: e + 1,
                line: line_of(s, i) as int,
                col: col_of(s, i) as int,
            },
            next: e + 1,
        }),
{
    lemma_plain_body(s, i + 1, e);
}

/// A fold of pairs keeps every property that holds of each pair's value.
pub proof fn lemma_dedup_preserves(pairs: Seq<(Seq<char>, ValModel)>, p: spec_fn(ValModel) -> bool)
    requires
        forall|q: int| 0 <= q < pairs.len() ==> p((#[trigger] pairs[q]).1),
    ensures
        forall|q: int|
            0 <= q < dedup_entries(pairs).len() ==> p((#[trigger] dedup_entries(pairs)[q]).1),
    decreases pairs.len(),
{
    if pairs.len() > 0 {
        let d = pairs.drop_last();
        assert forall|q: int| 0 <= q < d.len() implies p((#[trigger] d[q]).1) by {
            assert(d[q] == pairs[q]);
        }
        lemma_dedup_preserves(d, p);
        lemma_upsert_entries(dedup_entries(d), pairs.last().0, pairs.last().1);
        let u = dedup_entries(pairs);
        assert forall|q: int| 0 <= q < u.len() implies p((#[trigger] u[q]).1) by {
            if u[q] != (pairs.last().0, pairs.last().1) {
                let t = choose|t: int|
                    0 <= t < dedup_entries(d).len() && #[trigger] dedup_entries(d)[t] == u[q];
            }
        }
    }
}

/// A fold of pairs leaves no two entries with the same key.
pub proof fn lemma_dedup_unique(pairs: Seq<(Seq<char>, ValModel)>)
    ensures
        keys_unique(dedup_entries(pairs)),
    decreases pairs.len(),
{
    if pairs.len() == 0 {
    } else {
        lemma_dedup_unique(pairs.drop_last());
        lemma_upsert_unique(dedup_entries(pairs.drop_last()), pairs.last().0, pairs.last().1);
    }
}

/// The last write wins: after folding pairs ending with `(key, val)`, the
/// key is bound to `val`.
pub proof fn lemma_last_write_wins(
    pairs: Seq<(Seq<char>, ValModel)>,
    key: Seq<char>,
    val: ValModel,
)
    ensures
        lookup(dedup_entries(pairs.push((key, val))), key) == Some(val),
{
    assert(pairs.push((key, val)).drop_last() =~= pairs);
    lemma_upsert_lookup(dedup_entries(pairs), key, val);
}

/// A parsed object's entries have pairwise distinct keys.
pub proof fn lemma_object_keys_unique(s: Seq<char>, i: int)
    ensures
        sp_object(s, i) matches PRes::Parsed { v, .. } ==> keys_unique(v),
{
    if 0 <= i < s.len() && s[i] == '{' {
        let j = sp_ws(s, i + 1);
        if let PRes::Parsed { v: pairs, .. } = sp_members(s, j) {
            lemma_dedup_unique(pairs);
        }
    }
}

// ---------------------------------------------------------------------------
// Span fidelity and end-of-input reporting
// ---------------------------------------------------------------------------
/// Well-formedness of a parse result: every string node's span offsets
/// delimit its literal in the source (its body decodes to the node's value),
/// the node's line and column are those of its opening quote, and every
/// object's keys are pairwise distinct.
pub open spec fn tree_ok(s: Seq<char>, m: ValModel) -> bool
    decreases m,
{
    match m {
        ValModel::Rest(_) => true,
        ValModel::Str(n) => {
            &&& 0 <= n.pos < n.end <= s.len()
            &&& s[n.pos] == '"'
            &&& n.line == line_of(s, n.pos)
            &&& n.col == col_of(s, n.pos)
            &&& sp_str_body(s, n.pos + 1) == (PRes::Parsed { v: n.value, next: n.end })
        },
        ValModel::Array(es) => forall|q: int| 0 <= q < es.len() ==> tree_ok(s, #[trigger] es[q]),
        ValModel::Object(en) => keys_unique(en) && forall|q: int|
            0 <= q < en.len() ==> tree_ok(s, (#[trigger] en[q]).1),
    }
}

/// A hexadecimal or character-level failure for want of input is reported at
/// the end of the input.
pub proof fn lemma_char_props(s: Seq<char>, j: int)
    ensures
        sp_char(s, j) matches PRes::Failed { kind: ErrorKind::UnterminatedLiteral, at } ==> at
            == s.len(),
{
}

pub proof fn lemma_body_props(s: Seq<char>, j: int)
    ensures
        sp_str_body(s, j) matches PRes::Failed { kind: ErrorKind::UnterminatedLiteral, at } ==> at
            == s.len(),
    decreases s.len() - j,
{
    if 0 <= j < s.len() && s[j] != '"' {
        lemma_char_props(s, j);
        lemma_sp_char_next(s, j);
        if let PRes::Parsed { next: k, .. } = sp_char(s, j) {
            lemma_body_props(s, k);
        }
    }
}

/// What the string rule guarantees of its successes and of its
/// for-want-of-input failures.
pub proof fn lemma_string_props(s: Seq<char>, i: int)
    ensures
        sp_string(s, i) matches PRes::Failed { kind: ErrorKind::UnterminatedLiteral, at } ==> at
            == s.len(),
        sp_string(s, i) matches PRes::Parsed { v, next } ==> {
            &&& v.pos == i
            &&& i < v.end <= s.len()
            &&& next == v.end
            &&& s[i] == '"'
            &&& v.line == line_of(s, i)
            &&& v.col == col_of(s, i)
            &&& sp_str_body(s, i + 1) == (PRes::Parsed { v: v.value, next: v.end })
        },
{
    lemma_body_props(s, i + 1);
    lemma_sp_str_body_next(s, i + 1);
}

/// Span fidelity and end-of-input reporting for the value rule.
pub proof fn lemma_value_props(s: Seq<char>, i: int)
    ensures
        sp_value(s, i) matches PRes::Failed { kind: ErrorKind::UnterminatedLiteral, at } ==> at
            == s.len(),
        sp_value(s, i) matches PRes::Parsed { v, .. } ==> tree_ok(s, v),
    decreases s.len() - i, 3int,
{
    if 0 <= i <= s.len() {
        lemma_string_props(s, i);
        lemma_array_props(s, i);
        lemma_object_props(s, i);
    }
}

pub proof fn lemma_array_props(s: Seq<char>, i: int)
    ensures
        sp_array(s, i) matches PRes::Failed { kind: ErrorKind::UnterminatedLiteral, at } ==> at
            == s.len(),
        sp_array(s, i) matches PRes::Parsed { v, .. } ==> forall|q: int|
            0 <= q < v.len() ==> tree_ok(s, #[trigger] v[q]),
    decreases s.len() - i, 2int,
{
    if 0 <= i < s.len() && s[i] == '[' {
        let j = sp_ws(s, i + 1);
        lemma_sp_ws_bounds(s, i + 1);
        lemma_list_props(s, j);
    }
}

pub proof fn lemma_list_props(s: Seq<char>, j: int)
    ensures
        sp_list(s, j) matches PRes::Failed { kind: ErrorKind::UnterminatedLiteral, at } ==> at
            == s.len(),
        sp_list(s, j) matches PRes::Parsed { v, .. } ==> forall|q: int|
            0 <= q < v.len() ==> tree_ok(s, #[trigger] v[q]),
    decreases s.len() - j, 4int,
{
    if 0 <= j <= s.len() {
        lemma_value_props(s, j);
        if let PRes::Parsed { v, next: k } = sp_value(s, j) {
            if j < k <= s.len() {
                lemma_list_more_props(s, k);
                if let PRes::Parsed { v: rest, .. } = sp_list_more(s, k) {
                    assert forall|q: int| 0 <= q < (seq![v] + rest).len() implies tree_ok(
                        s,
                        #[trigger] (seq![v] + rest)[q],
                    ) by {
                        if q == 0 {
                            assert((seq![v] + rest)[0] == v);
                        } else {
                            assert((seq![v] + rest)[q] == rest[q - 1]);
                        }
                    }
                }
            } else {
                assert(forall|q: int| 0 <= q < seq![v].len() ==> #[trigger] seq![v][q] == v);
            }
        }
    }
}

pub proof fn lemma_list_more_props(s: Seq<char>, k: int)
    ensures
        sp_list_more(s, k) matches PRes::Failed { kind: ErrorKind::UnterminatedLiteral, at } ==> at
            == s.len(),
        sp_list_more(s, k) matches PRes::Parsed { v, .. } ==> forall|q: int|
            0 <= q < v.len() ==> tree_ok(s, #[trigger] v[q]),
    decreases s.len() - k, 4int,
{
    if 0 <= k <= s.len() {
        let m = sp_ws(s, k);
        lemma_sp_ws_bounds(s, k);
        if m < s.len() && s[m] == ',' {
            let n = sp_ws(s, m + 1);
            lemma_sp_ws_bounds(s, m + 1);
            lemma_value_props(s, n);
            if let PRes::Parsed { v, next: k2 } = sp_value(s, n) {
                if n < k2 <= s.len() {
                    lemma_list_more_props(s, k2);
                    if let PRes::Parsed { v: rest, .. } = sp_list_more(s, k2) {
                        assert forall|q: int| 0 <= q < (seq![v] + rest).len() implies tree_ok(
                            s,
                            #[trigger] (seq![v] + rest)[q],
                        ) by {
                            if q == 0 {
                                assert((seq![v] + rest)[0] == v);
                            } else {
                                assert((seq![v] + rest)[q] == rest[q - 1]);
                            }
                        }
                    }
                } else {
                    assert(forall|q: int| 0 <= q < seq![v].len() ==> #[trigger] seq![v][q] == v);
                }
            }
        }
    }
}

pub proof fn lemma_object_props(s: Seq<char>, i: int)
    ensures
        sp_object(s, i) matches PRes::Failed { kind: ErrorKind::UnterminatedLiteral, at } ==> at
            == s.len(),
        sp_object(s, i) matches PRes::Parsed { v, .. } ==> keys_unique(v) && forall|q: int|
            0 <= q < v.len() ==> tree_ok(s, (#[trigger] v[q]).1),
    decreases s.len() - i, 2int,
{
    if 0 <= i < s.len() && s[i] == '{' {
        let j = sp_ws(s, i + 1);
        lemma_sp_ws_bounds(s, i + 1);
        lemma_members_props(s, j);
        if let PRes::Parsed { v: pairs, .. } = sp_members(s, j) {
            lemma_dedup_preserves(pairs, |m: ValModel| tree_ok(s, m));
            lemma_dedup_unique(pairs);
        }
    }
}

pub proof fn lemma_members_props(s: Seq<char>, j: int)
    ensures
        sp_members(s, j) matches PRes::Failed { kind: ErrorKind::UnterminatedLiteral, at } ==> at
            == s.len(),
        sp_members(s, j) matches PRes::Parsed { v, .. } ==> forall|q: int|
            0 <= q < v.len() ==> tree_ok(s, (#[trigger] v[q]).1),
    decreases s.len() - j, 4int,
{
    if 0 <= j <= s.len() {
        lemma_string_props(s, j);
        if let PRes::Parsed { v: key, next: k } = sp_string(s, j) {
            lemma_pair_tail_props(s, j, key.value, k);
        }
    }
}

pub proof fn lemma_pair_tail_props(s: Seq<char>, j: int, key: Seq<char>, k: int)
    ensures
        sp_pair_tail(s, j, key, k) matches PRes::Failed {
            kind: ErrorKind::UnterminatedLiteral,
            at,
        } ==> at == s.len(),
        sp_pair_tail(s, j, key, k) matches PRes::Parsed { v, .. } ==> forall|q: int|
            0 <= q < v.len() ==> tree_ok(s, (#[trigger] v[q]).1),
    decreases s.len() - j, 3int,
{
    if 0 <= j < k <= s.len() {
        let w = sp_ws(s, k);
        lemma_sp_ws_bounds(s, k);
        if w < s.len() && s[w] == ':' {
            let n = sp_ws(s, w + 1);
            lemma_sp_ws_bounds(s, w + 1);
            lemma_value_props(s, n);
            if let PRes::Parsed { v, next: k2 } = sp_value(s, n) {
                if n < k2 <= s.len() {
                    lemma_members_more_props(s, k2);
                    if let PRes::Parsed { v: rest, .. } = sp_members_more(s, k2) {
                        assert forall|q: int|
                            0 <= q < (seq![(key, v)] + rest).len() implies tree_ok(
                            s,
                            (#[trigger] (seq![(key, v)] + rest)[q]).1,
                        ) by {
                            if q == 0 {
                                assert((seq![(key, v)] + rest)[0] == (key, v));
                            } else {
                                assert((seq![(key, v)] + rest)[q] == rest[q - 1]);
                            }
                        }
                    }
                } else {
                    assert(forall|q: int|
                        0 <= q < seq![(key, v)].len() ==> #[trigger] seq![(key, v)][q] == (key, v));
                }
            }
        }
    }
}

pub proof fn lemma_members_more_props(s: Seq<char>, k: int)
    ensures
        sp_members_more(s, k) matches PRes::Failed { kind: ErrorKind::UnterminatedLiteral, at }
            ==> at == s.len(),
        sp_members_more(s, k) matches PRes::Parsed { v, .. } ==> forall|q: int|
            0 <= q < v.len() ==> tree_ok(s, (#[trigger] v[q]).1),
    decreases s.len() - k, 4int,
{
    if 0 <= k <= s.len() {
        let m = sp_ws(s, k);
        lemma_sp_ws_bounds(s, k);
        if m < s.len() && s[m] == ',' {
            let n = sp_ws(s, m + 1);
            lemma_sp_ws_bounds(s, m + 1);
            lemma_string_props(s, n);
            if let PRes::Parsed { v: key, next: kk } = sp_string(s, n) {
                if n < kk <= s.len() {
                    lemma_pair_tail_props(s, n, key.value, kk);
                }
            }
        }
    }
}

/// Every string node anywhere in a parsed document records the exact span of
/// its literal and the 1-based line and column of its opening quote.
pub proof fn lemma_parse_spans(s: Seq<char>)
    ensures
        sp_json(s) matches PRes::Parsed { v, .. } ==> tree_ok(s, v),
{
    lemma_value_props(s, sp_ws(s, 0));
}

/// An unterminated literal is reported at the offset of the end of the
/// input, not at an earlier position.
pub proof fn lemma_unterminated_at_end(s: Seq<char>)
    ensures
        sp_json(s) matches PRes::Failed { kind: ErrorKind::UnterminatedLiteral, at } ==> at
            == s.len(),
{
    lemma_value_props(s, sp_ws(s, 0));
}

// ---------------------------------------------------------------------------
// Round trips: parsing inverts serialization
// ---------------------------------------------------------------------------
/// The hexadecimal digit for a value below 16.
pub open spec fn hexdig(x: int) -> char {
    if x == 0 {
        '0'
    } else if x == 1 {
        '1'
    } else if x == 2 {
        '2'
    } else if x == 3 {
        '3'
    } else if x == 4 {
        '4'
    } else if x == 5 {
        '5'
    } else if x == 6 {
        '6'
    } else if x == 7 {
        '7'
    } else if x == 8 {
        '8'
    } else if x == 9 {
        '9'
    } else if x == 10 {
        'a'
    } else if x == 11 {
        'b'
    } else if x == 12 {
        'c'
    } else if x == 13 {
        'd'
    } else if x == 14 {
        'e'
    } else {
        'f'
    }
}

pub proof fn lemma_hexdig(x: int)
    requires
        0 <= x < 16,
    ensures
        is_hex_digit(hexdig(x)),
        hex_val(hexdig(x)) == x,
{
}

/// Standard JSON escaping of one character: quotes, backslashes and the five
/// short escapes by their escape sequences, other control characters as
/// `\u00XX`, anything else verbatim.
pub open spec fn esc_char(c: char) -> Seq<char> {
    if c == '"' {
        seq!['\\', '"']
    } else if c == '\\' {
        seq!['\\', '\\']
    } else if c == '\u{0008}' {
        seq!['\\', 'b']
    } else if c == '\u{000C}' {
        seq!['\\', 'f']
    } else if c == '\n' {
        seq!['\\', 'n']
    } else if c == '\r' {
        seq!['\\', 'r']
    } else if c == '\t' {
        seq!['\\', 't']
    } else if (c as u32) < 0x20 {
        seq!['\\', 'u', '0', '0', hexdig(c as u32 as int / 16), hexdig(c as u32 as int % 16)]
    } else {
        seq![c]
    }
}

/// Standard JSON escaping of a text, character by character.
pub open spec fn esc(v: Seq<char>) -> Seq<char>
    decreases v.len(),
{
    if v.len() == 0 {
        Seq::empty()
    } else {
        esc_char(v[0]) + esc(v.drop_first())
    }
}

/// Decoding inverts escaping: a string body that spells the standard
/// escaping of `v` followed by a closing quote decodes to exactly `v`.
#[verifier::rlimit(60)]
pub proof fn lemma_escape_decode(s: Seq<char>, j: int, v: Seq<char>)
    requires
        0 <= j,
        j + esc(v).len() < s.len(),
        s.subrange(j, j + esc(v).len()) == esc(v),
        s[j + esc(v).len()] == '"',
    ensures
        sp_str_body(s, j) == (PRes::Parsed { v, next: j + esc(v).len() + 1 }),
    decreases v.len(),
{
    if v.len() == 0 {
        assert(s[j] == '"');
        assert(v =~= Seq::<char>::empty());
    } else {
        let c = v[0];
        let ec = esc_char(c);
        let tail = v.drop_first();
        assert forall|q: int| 0 <= q < ec.len() implies s[j + q] == ec[q] by {
            assert(esc(v)[q] == ec[q]);
            assert(s.subrange(j, j + esc(v).len())[q] == s[j + q]);
        }
        assert(s[j] == ec[0]) by {
            assert(esc(v)[0] == ec[0]);
            assert(s.subrange(j, j + esc(v).len())[0] == s[j]);
        }
        assert(s.subrange(j + ec.len(), j + esc(v).len()) =~= esc(tail)) by {
            assert forall|q: int| 0 <= q < esc(tail).len() implies s.subrange(
                j + ec.len(),
                j + esc(v).len(),
            )[q] == esc(tail)[q] by {
                assert(esc(v)[ec.len() + q] == esc(tail)[q]);
                assert(s.subrange(j, j + esc(v).len())[ec.len() + q] == s[j + ec.len() + q]);
            }
        }
        lemma_escape_decode(s, j + ec.len(), tail);
        if c == '"' || c == '\\' || c == '\u{0008}' || c == '\u{000C}' || c == '\n' || c == '\r'
            || c == '\t' {
            assert(s[j] == '\\');
            assert(sp_char(s, j) == (PRes::Parsed { v: c, next: j + 2 }));
        } else if (c as u32) < 0x20 {
            assert(s[j] == '\\' && s[j + 1] == 'u');
            let x1 = c as u32 as int / 16;
            let x2 = c as u32 as int % 16;
            lemma_hexdig(x1);
            lemma_hexdig(x2);
            assert(s[j + 2] == '0' && s[j + 3] == '0' && s[j + 4] == hexdig(x1) && s[j + 5]
                == hexdig(x2));
            let u = hex_val(s[j + 2]) * 4096 + hex_val(s[j + 3]) * 256 + hex_val(s[j + 4]) * 16
                + hex_val(s[j + 5]);
            assert(u == x1 * 16 + x2);
            assert(u == c as u32);
            vstd::utf8::char_u32_cast(c, c as u32);
            assert(sp_hex4(s, j + 2) == (PRes::Parsed { v: u, next: j + 6 }));
            assert(sp_char(s, j) == (PRes::Parsed { v: c, next: j + 6 }));
        } else {
            assert(s[j] == c && c != '"' && c != '\\');
            assert(sp_char(s, j) == (PRes::Parsed { v: c, next: j + 1 }));
        }
        assert(seq![c] + tail =~= v);
        assert(esc(v).len() == ec.len() + esc(tail).len());
        assert(sp_str_body(s, j + ec.len()) == (PRes::Parsed {
            v: tail,
            next: j + ec.len() + esc(tail).len() + 1,
        }));
        assert(sp_str_body(s, j) == (PRes::Parsed { v, next: j + esc(v).len() + 1 }));
    }
}

/// Round trip for string literals: a quoted literal spelling the standard
/// escaping of any text parses to a string node whose decoded value is
/// exactly that text, spanning the whole document from line 1, column 1.
pub proof fn lemma_string_roundtrip(v: Seq<char>)
    ensures
        sp_json(seq!['"'] + esc(v) + seq!['"']) == (PRes::Parsed {
            v: ValModel::Str(
                StrModel {
                    value: v,
                    pos: 0,
                    end: esc(v).len() + 2 as int,
                    line: 1,
                    col: 1,
                },
            ),
            next: esc(v).len() + 2 as int,
        }),
{
    let s = seq!['"'] + esc(v) + seq!['"'];
    assert(s[0] == '"');
    assert(s.len() == esc(v).len() + 2);
    assert(sp_ws(s, 0) == 0);
    assert(s.subrange(1, 1 + esc(v).len() as int) =~= esc(v)) by {
        assert forall|q: int| 0 <= q < esc(v).len() implies s.subrange(1, 1 + esc(v).len() as int)[q]
            == esc(v)[q] by {
            assert(s[1 + q] == esc(v)[q]);
        }
    }
    assert(s[1 + esc(v).len() as int] == '"');
    lemma_escape_decode(s, 1, v);
    assert(s.subrange(0, 0) =~= Seq::<char>::empty());
    assert(line_of(s, 0) == 1);
    assert(col_of(s, 0) == 1);
    assert(sp_ws(s, s.len() as int) == s.len());
}

/// Round trip for numeric text: a document that is exactly one number in the
/// accepted grammar parses to a scalar holding that text verbatim.
pub proof fn lemma_number_roundtrip(t: Seq<char>)
    requires
        t.len() > 0,
        crate::grammar::sp_number(t, 0) == Some(t.len() as int),
    ensures
        sp_json(t) == (PRes::Parsed { v: ValModel::Rest(t), next: t.len() as int }),
{
    assert(is_digit(t[0]) || t[0] == '.') by {
        if !is_digit(t[0]) && t[0] != '.' {
            assert(crate::grammar::sp_decimal(t, 0) is None);
            assert(crate::grammar::sp_float(t, 0) is None);
        }
    }
    assert(sp_ws(t, 0) == 0);
    assert(sp_string(t, 0) == (PRes::<StrModel>::Failed { kind: ErrorKind::NoMatch, at: 0 }));
    assert(!crate::grammar::sp_true_at(t, 0));
    assert(!crate::grammar::sp_false_at(t, 0));
    assert(!crate::grammar::sp_null_at(t, 0));
    assert(t.subrange(0, t.len() as int) =~= t);
    assert(sp_rest(t, 0) == (PRes::Parsed { v: t, next: t.len() as int }));
    assert(sp_ws(t, t.len() as int) == t.len());
}

} // verus!
