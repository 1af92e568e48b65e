//! The round trip: serializing any well-formed value with standard JSON
//! escaping and no optional whitespace, then parsing the text, yields the
//! value back, up to span and position metadata.

use crate::grammar::{
    dedup_entries, is_digit, is_ws_char, sp_array, sp_json, sp_list, sp_list_more, sp_members,
    sp_members_more, sp_number, sp_object, sp_pair_tail, sp_rest, sp_run, sp_string, sp_trim,
    sp_value, sp_ws,
};
use crate::laws::{esc, lemma_escape_decode};
use crate::model::{ErrorKind, PRes, StrModel, ValModel, lemma_upsert_append};
use vstd::prelude::*;

verus! {

broadcast use vstd::seq::group_seq_axioms;

/// A JSON value with no position metadata: what a parse result is compared
/// against, up to spans and columns.
pub enum AbsValue {
    Rest(Seq<char>),
    Str(Seq<char>),
    Array(Seq<AbsValue>),
    Object(Seq<(Seq<char>, AbsValue)>),
}

pub open spec fn kw_true() -> Seq<char> {
    seq!['t', 'r', 'u', 'e']
}

pub open spec fn kw_false() -> Seq<char> {
    seq!['f', 'a', 'l', 's', 'e']
}

pub open spec fn kw_null() -> Seq<char> {
    seq!['n', 'u', 'l', 'l']
}

/// Scalar texts covered by the round trip: a keyword, or plain digits.
pub open spec fn wf_scalar(t: Seq<char>) -> bool {
    t == kw_true() || t == kw_false() || t == kw_null() || (t.len() > 0 && forall|q: int|
        0 <= q < t.len() ==> is_digit(#[trigger] t[q]))
}

/// A well-formed value: scalar texts are keywords or plain digits, and each
/// object's keys are pairwise distinct.
pub open spec fn wf_val(a: AbsValue) -> bool
    decreases a,
{
    match a {
        AbsValue::Rest(t) => wf_scalar(t),
        AbsValue::Str(_) => true,
        AbsValue::Array(es) => forall|q: int| 0 <= q < es.len() ==> wf_val(#[trigger] es[q]),
        AbsValue::Object(en) => (forall|x: int, y: int|
            0 <= x < y < en.len() ==> (#[trigger] en[x]).0 != (#[trigger] en[y]).0) && forall|
            q: int,
        |
            0 <= q < en.len() ==> wf_val((#[trigger] en[q]).1),
    }
}

/// A parse result denotes a value, up to span and position metadata.
pub open spec fn models_abs(m: ValModel, a: AbsValue) -> bool
    decreases a,
{
    match a {
        AbsValue::Rest(t) => m == ValModel::Rest(t),
        AbsValue::Str(v) => m matches ValModel::Str(n) && n.value == v,
        AbsValue::Array(es) => m matches ValModel::Array(ms) && ms.len() == es.len() && forall|
            q: int,
        | 0 <= q < es.len() ==> models_abs(ms[q], #[trigger] es[q]),
        AbsValue::Object(en) => m matches ValModel::Object(mn) && mn.len() == en.len() && forall|
            q: int,
        |
            0 <= q < en.len() ==> mn[q].0 == (#[trigger] en[q]).0 && models_abs(mn[q].1, en[q].1),
    }
}

/// The serialized text of a value: standard escaping, no optional
/// whitespace.
pub open spec fn ser_val(a: AbsValue) -> Seq<char>
    decreases a, 1int,
{
    match a {
        AbsValue::Rest(t) => t,
        AbsValue::Str(v) => seq!['"'] + (esc(v) + seq!['"']),
        AbsValue::Array(es) => seq!['['] + (ser_elems(es) + seq![']']),
        AbsValue::Object(en) => seq!['{'] + (ser_entries(en) + seq!['}']),
    }
}

/// Comma-separated serialized elements.
pub open spec fn ser_elems(es: Seq<AbsValue>) -> Seq<char>
    decreases es, 1int,
{
    if es.len() == 0 {
        Seq::empty()
    } else {
        ser_val(es.first()) + ser_more(es.drop_first())
    }
}

/// Serialized elements after the first, each preceded by a comma.
pub open spec fn ser_more(es: Seq<AbsValue>) -> Seq<char>
    decreases es, 2int,
{
    if es.len() == 0 {
        Seq::empty()
    } else {
        seq![','] + (ser_val(es.first()) + ser_more(es.drop_first()))
    }
}

/// One serialized `key : value` pair.
pub open spec fn ser_pair(key: Seq<char>, a: AbsValue) -> Seq<char>
    decreases a,
{
    seq!['"'] + (esc(key) + (seq!['"'] + (seq![':'] + ser_val(a))))
}

/// Comma-separated serialized pairs.
pub open spec fn ser_entries(en: Seq<(Seq<char>, AbsValue)>) -> Seq<char>
    decreases en, 1int,
{
    if en.len() == 0 {
        Seq::empty()
    } else {
        ser_pair(en.first().0, en.first().1) + ser_entries_more(en.drop_first())
    }
}

/// Serialized pairs after the first, each preceded by a comma.
pub open spec fn ser_entries_more(en: Seq<(Seq<char>, AbsValue)>) -> Seq<char>
    decreases en, 2int,
{
    if en.len() == 0 {
        Seq::empty()
    } else {
        seq![','] + (ser_pair(en.first().0, en.first().1) + ser_entries_more(en.drop_first()))
    }
}

/// Splitting a spelled-out concatenation: if `s` spells `a + b` at `i`, it
/// spells `a` at `i` and `b` right after.
proof fn lemma_split(s: Seq<char>, i: int, a: Seq<char>, b: Seq<char>)
    requires
        0 <= i,
        i + a.len() + b.len() <= s.len(),
        s.subrange(i, i + a.len() + b.len()) == a + b,
    ensures
        s.subrange(i, i + a.len()) == a,
        s.subrange(i + a.len(), i + a.len() + b.len()) == b,
        forall|q: int| 0 <= q < a.len() ==> s[i + q] == a[q],
        forall|q: int| 0 <= q < b.len() ==> s[i + a.len() + q] == b[q],
        a.len() > 0 ==> s[i] == a[0],
        b.len() > 0 ==> s[i + a.len()] == b[0],
{
    let w = s.subrange(i, i + a.len() + b.len());
    assert forall|q: int| 0 <= q < a.len() implies s[i + q] == a[q] by {
        assert(w[q] == s[i + q]);
        assert((a + b)[q] == a[q]);
    }
    assert forall|q: int| 0 <= q < b.len() implies s[i + a.len() + q] == b[q] by {
        assert(w[a.len() + q] == s[i + a.len() + q]);
        assert((a + b)[a.len() + q] == b[q]);
    }
    assert(s.subrange(i, i + a.len()) =~= a);
    assert(s.subrange(i + a.len(), i + a.len() + b.len()) =~= b);
    if a.len() > 0 {
        assert(s[i + 0] == a[0]);
    }
    if b.len() > 0 {
        assert(s[i + a.len() + 0] == b[0]);
    }
}

/// The first character of a serialized well-formed value is never
/// whitespace, a comma, a closing bracket or a closing brace, and the text
/// is never empty.
proof fn lemma_ser_first(a: AbsValue)
    requires
        wf_val(a),
    ensures
        ser_val(a).len() > 0,
        !is_ws_char(ser_val(a)[0]),
        ser_val(a)[0] != ',' && ser_val(a)[0] != ']' && ser_val(a)[0] != '}',
{
    match a {
        AbsValue::Rest(t) => {
            assert(t.len() > 0);
            if t == kw_true() || t == kw_false() || t == kw_null() {
            } else {
                assert(is_digit(t[0]));
            }
        },
        AbsValue::Str(v) => {
            assert(ser_val(a)[0] == '"');
        },
        AbsValue::Array(es) => {
            assert(ser_val(a)[0] == '[');
        },
        AbsValue::Object(en) => {
            assert(ser_val(a)[0] == '{');
        },
    }
}

/// The scalar rule consumes exactly a run of digits that is followed by a
/// character that cannot extend a number.
proof fn lemma_run_exact(s: Seq<char>, i: int, e: int)
    requires
        0 <= i <= e <= s.len(),
        forall|q: int| i <= q < e ==> is_digit(#[trigger] s[q]),
        e == s.len() || !(is_digit(s[e]) || s[e] == '_'),
    ensures
        sp_run(s, i) == e,
    decreases e - i,
{
    if i < e {
        assert(is_digit(s[i]));
        lemma_run_exact(s, i + 1, e);
    }
}

proof fn lemma_digits_rest(s: Seq<char>, i: int, e: int)
    requires
        0 <= i < e <= s.len(),
        forall|q: int| i <= q < e ==> is_digit(#[trigger] s[q]),
        e == s.len() || (s[e] == ',' || s[e] == ']' || s[e] == '}'),
    ensures
        sp_rest(s, i) == (PRes::Parsed { v: s.subrange(i, e), next: e }),
{
    lemma_run_exact(s, i, e);
    assert(sp_trim(s, i, e) == e);
    assert(crate::grammar::sp_decimal(s, i) == Some(e));
    assert(crate::grammar::sp_exp(s, e) is None);
    assert(crate::grammar::sp_float(s, i) == Some::<int>(e) || crate::grammar::sp_float(s, i)
        is None) by {
        assert(s[i] != '.');
    }
    assert(sp_number(s, i) == Some(e));
    assert(!crate::grammar::sp_true_at(s, i));
    assert(!crate::grammar::sp_false_at(s, i));
    assert(!crate::grammar::sp_null_at(s, i));
}

/// At a closing delimiter or a comma, no value alternative applies.
proof fn lemma_value_nomatch(s: Seq<char>, p: int)
    requires
        0 <= p <= s.len(),
        p == s.len() || (s[p] == ']' || s[p] == '}' || s[p] == ','),
    ensures
        sp_value(s, p) == (PRes::<ValModel>::Failed { kind: ErrorKind::NoMatch, at: p }),
{
    assert(crate::grammar::sp_decimal(s, p) is None);
    assert(crate::grammar::sp_float(s, p) is None);
}

/// Folding pairs whose keys are pairwise distinct changes nothing.
proof fn lemma_dedup_identity(pairs: Seq<(Seq<char>, ValModel)>)
    requires
        forall|x: int, y: int|
            0 <= x < y < pairs.len() ==> (#[trigger] pairs[x]).0 != (#[trigger] pairs[y]).0,
    ensures
        dedup_entries(pairs) == pairs,
    decreases pairs.len(),
{
    if pairs.len() > 0 {
        let d = pairs.drop_last();
        assert forall|x: int, y: int| 0 <= x < y < d.len() implies (#[trigger] d[x]).0 != (
        #[trigger] d[y]).0 by {
            assert(d[x] == pairs[x] && d[y] == pairs[y]);
        }
        lemma_dedup_identity(d);
        assert forall|q: int| 0 <= q < d.len() implies (#[trigger] d[q]).0 != pairs.last().0 by {
            assert(d[q] == pairs[q]);
        }
        lemma_upsert_append(d, pairs.last().0, pairs.last().1);
        assert(d.push(pairs.last()) =~= pairs);
        assert(d.push((pairs.last().0, pairs.last().1)) =~= pairs);
    }
}


/// Node count of a value, the measure of the round-trip induction.
pub open spec fn size_val(a: AbsValue) -> nat
    decreases a, 1int,
{
    match a {
        AbsValue::Rest(_) => 1,
        AbsValue::Str(_) => 1,
        AbsValue::Array(es) => 1 + size_elems(es),
        AbsValue::Object(en) => 1 + size_entries(en),
    }
}

pub open spec fn size_elems(es: Seq<AbsValue>) -> nat
    decreases es, 2int,
{
    if es.len() == 0 {
        0
    } else {
        1 + size_val(es.first()) + size_elems(es.drop_first())
    }
}

pub open spec fn size_entries(en: Seq<(Seq<char>, AbsValue)>) -> nat
    decreases en, 2int,
{
    if en.len() == 0 {
        0
    } else {
        1 + size_val(en.first().1) + size_entries(en.drop_first())
    }
}

/// Where a serialized value may stop: at the end of the input, or before a
/// comma or a closing delimiter of the enclosing composite.
pub open spec fn at_boundary(s: Seq<char>, e: int) -> bool {
    e == s.len() || (0 <= e < s.len() && (s[e] == ',' || s[e] == ']' || s[e] == '}'))
}

/// The value rule parses a spelled-out serialized value back, consuming
/// exactly its text.
#[verifier::rlimit(100)]
proof fn lemma_rt_value(s: Seq<char>, i: int, a: AbsValue)
    requires
        wf_val(a),
        0 <= i,
        i + ser_val(a).len() <= s.len(),
        s.subrange(i, i + ser_val(a).len()) == ser_val(a),
        at_boundary(s, i + ser_val(a).len()),
    ensures
        sp_value(s, i) matches PRes::Parsed { v, next } && next == i + ser_val(a).len()
            && models_abs(v, a),
    decreases size_val(a), 1int,
{
    let w = ser_val(a);
    assert forall|q: int| 0 <= q < w.len() implies s[i + q] == w[q] by {
        assert(s.subrange(i, i + w.len())[q] == s[i + q]);
    }
    lemma_ser_first(a);
    assert(s[i] == w[0]) by {
        assert(s.subrange(i, i + w.len())[0] == s[i]);
    }
    match a {
        AbsValue::Rest(t) => {
            if t == kw_true() {
                assert(s[i] == 't' && s[i + 1] == 'r' && s[i + 2] == 'u' && s[i + 3] == 'e');
                assert(s.subrange(i, i + 4) =~= t);
            } else if t == kw_false() {
                assert(s[i] == 'f' && s[i + 1] == 'a' && s[i + 2] == 'l' && s[i + 3] == 's' && s[i
                    + 4] == 'e');
                assert(!crate::grammar::sp_true_at(s, i));
                assert(s.subrange(i, i + 5) =~= t);
            } else if t == kw_null() {
                assert(s[i] == 'n' && s[i + 1] == 'u' && s[i + 2] == 'l' && s[i + 3] == 'l');
                assert(!crate::grammar::sp_true_at(s, i));
                assert(!crate::grammar::sp_false_at(s, i));
                assert(s.subrange(i, i + 4) =~= t);
            } else {
                assert forall|q: int| i <= q < i + t.len() implies is_digit(#[trigger] s[q]) by {
                    assert(s.subrange(i, i + w.len())[q - i] == s[q]);
                    assert(is_digit(t[q - i]));
                }
                lemma_digits_rest(s, i, i + t.len());
                assert(s.subrange(i, i + t.len()) =~= t);
            }
            assert(sp_string(s, i) == (PRes::<StrModel>::Failed {
                kind: ErrorKind::NoMatch,
                at: i,
            }));
        },
        AbsValue::Str(v) => {
            lemma_split(s, i, seq!['"'], esc(v) + seq!['"']);
            lemma_split(s, i + 1, esc(v), seq!['"']);
            assert(s[i + 1 + esc(v).len()] == '"');
            lemma_escape_decode(s, i + 1, v);
        },
        AbsValue::Array(es) => {
            lemma_rt_array(s, i, es);
        },
        AbsValue::Object(en) => {
            lemma_rt_object(s, i, en);
        },
    }
}

/// The array case of the round trip.
#[verifier::rlimit(100)]
proof fn lemma_rt_array(s: Seq<char>, i: int, es: Seq<AbsValue>)
    requires
        wf_val(AbsValue::Array(es)),
        0 <= i,
        i + ser_val(AbsValue::Array(es)).len() <= s.len(),
        s.subrange(i, i + ser_val(AbsValue::Array(es)).len()) == ser_val(AbsValue::Array(es)),
    ensures
        sp_value(s, i) matches PRes::Parsed { v, next } && next == i + ser_val(
            AbsValue::Array(es),
        ).len() && models_abs(v, AbsValue::Array(es)),
    decreases size_val(AbsValue::Array(es)), 0int,
{
    lemma_split(s, i, seq!['['], ser_elems(es) + seq![']']);
    lemma_split(s, i + 1, ser_elems(es), seq![']']);
    let close = i + 1 + ser_elems(es).len();
    assert(s[close] == ']');
    assert(s[i] == '[');
    assert(sp_string(s, i) == (PRes::<StrModel>::Failed { kind: ErrorKind::NoMatch, at: i }));
    assert(crate::grammar::sp_decimal(s, i) is None);
    assert(crate::grammar::sp_float(s, i) is None);
    assert(sp_rest(s, i) == (PRes::<Seq<char>>::Failed { kind: ErrorKind::NoMatch, at: i }));
    if es.len() == 0 {
        assert(sp_ws(s, i + 1) == i + 1);
        lemma_value_nomatch(s, i + 1);
        assert(sp_list(s, i + 1) == (PRes::<Seq<ValModel>>::Parsed {
            v: Seq::empty(),
            next: i + 1,
        }));
    } else {
        let e0 = es.first();
        let rest = es.drop_first();
        assert(wf_val(e0));
        assert(forall|q: int| 0 <= q < rest.len() ==> rest[q] == es[q + 1]);
        lemma_split(s, i + 1, ser_val(e0), ser_more(rest));
        lemma_ser_first(e0);
        assert(s[i + 1] == ser_val(e0)[0]);
        assert(sp_ws(s, i + 1) == i + 1);
        let k = i + 1 + ser_val(e0).len();
        assert(at_boundary(s, k)) by {
            if rest.len() == 0 {
                assert(k == close);
            } else {
                assert(s[k] == ser_more(rest)[0]);
            }
        }
        lemma_rt_value(s, i + 1, e0);
        lemma_rt_more(s, k, rest, close);
        if let PRes::Parsed { v: v0, .. } = sp_value(s, i + 1) {
            if let PRes::Parsed { v: ms, .. } = sp_list_more(s, k) {
                let whole = seq![v0] + ms;
                assert(sp_list(s, i + 1) == (PRes::<Seq<ValModel>>::Parsed {
                    v: whole,
                    next: close,
                }));
                assert(whole.len() == es.len());
                assert forall|q: int| 0 <= q < es.len() implies models_abs(
                    whole[q],
                    #[trigger] es[q],
                ) by {
                    if q == 0 {
                        assert(whole[0] == v0);
                    } else {
                        assert(whole[q] == ms[q - 1]);
                        assert(es[q] == rest[q - 1]);
                    }
                }
            }
        }
    }
    assert(sp_ws(s, close) == close);
}

/// The object case of the round trip.
#[verifier::rlimit(100)]
proof fn lemma_rt_object(s: Seq<char>, i: int, en: Seq<(Seq<char>, AbsValue)>)
    requires
        wf_val(AbsValue::Object(en)),
        0 <= i,
        i + ser_val(AbsValue::Object(en)).len() <= s.len(),
        s.subrange(i, i + ser_val(AbsValue::Object(en)).len()) == ser_val(AbsValue::Object(en)),
    ensures
        sp_value(s, i) matches PRes::Parsed { v, next } && next == i + ser_val(
            AbsValue::Object(en),
        ).len() && models_abs(v, AbsValue::Object(en)),
    decreases size_val(AbsValue::Object(en)), 0int,
{
    lemma_split(s, i, seq!['{'], ser_entries(en) + seq!['}']);
    lemma_split(s, i + 1, ser_entries(en), seq!['}']);
    let close = i + 1 + ser_entries(en).len();
    assert(s[close] == '}');
    assert(s[i] == '{');
    assert(sp_string(s, i) == (PRes::<StrModel>::Failed { kind: ErrorKind::NoMatch, at: i }));
    assert(crate::grammar::sp_decimal(s, i) is None);
    assert(crate::grammar::sp_float(s, i) is None);
    assert(sp_rest(s, i) == (PRes::<Seq<char>>::Failed { kind: ErrorKind::NoMatch, at: i }));
    assert(sp_array(s, i) == (PRes::<Seq<ValModel>>::Failed { kind: ErrorKind::NoMatch, at: i }));
    assert(sp_ws(s, i + 1) == i + 1) by {
        if en.len() == 0 {
            assert(s[i + 1] == '}');
        } else {
            assert(s[i + 1] == ser_entries(en)[0]);
            assert(ser_entries(en)[0] == ser_pair(en.first().0, en.first().1)[0]);
        }
    }
    assert(forall|q: int| 0 <= q < en.len() ==> wf_val((#[trigger] en[q]).1));
    lemma_rt_members(s, i + 1, en, close);
    if let PRes::Parsed { v: pairs, .. } = sp_members(s, i + 1) {
        assert(sp_ws(s, close) == close);
        assert forall|x: int, y: int| 0 <= x < y < pairs.len() implies (#[trigger] pairs[x]).0 != (
        #[trigger] pairs[y]).0 by {
            assert(pairs[x].0 == en[x].0 && pairs[y].0 == en[y].0);
        }
        lemma_dedup_identity(pairs);
        assert(sp_object(s, i) == (PRes::<Seq<(Seq<char>, ValModel)>>::Parsed {
            v: pairs,
            next: close + 1,
        }));
    }
}

/// Further serialized elements, each behind a comma, parse back in order up
/// to the closing bracket at `close`.
#[verifier::rlimit(100)]
proof fn lemma_rt_more(s: Seq<char>, k: int, es: Seq<AbsValue>, close: int)
    requires
        forall|q: int| 0 <= q < es.len() ==> wf_val(#[trigger] es[q]),
        0 <= k,
        close == k + ser_more(es).len(),
        close < s.len(),
        s.subrange(k, close) == ser_more(es),
        s[close] == ']',
    ensures
        sp_list_more(s, k) matches PRes::Parsed { v, next } && next == close && v.len() == es.len()
            && (forall|q: int| 0 <= q < es.len() ==> models_abs(v[q], #[trigger] es[q])),
    decreases size_elems(es), 2int,
{
    if es.len() == 0 {
        assert(close == k);
        assert(s[k] == ']');
        assert(sp_ws(s, k) == k);
    } else {
        let e0 = es.first();
        let rest = es.drop_first();
        assert(wf_val(e0));
        lemma_split(s, k, seq![','], ser_val(e0) + ser_more(rest));
        lemma_split(s, k + 1, ser_val(e0), ser_more(rest));
        assert(s[k] == ',');
        assert(sp_ws(s, k) == k);
        lemma_ser_first(e0);
        assert(s[k + 1] == ser_val(e0)[0]);
        assert(sp_ws(s, k + 1) == k + 1);
        let k2 = k + 1 + ser_val(e0).len();
        assert(at_boundary(s, k2)) by {
            if rest.len() == 0 {
                assert(k2 == close);
            } else {
                assert(s[k2] == ser_more(rest)[0]);
            }
        }
        lemma_rt_value(s, k + 1, e0);
        lemma_rt_more(s, k2, rest, close);
        if let PRes::Parsed { v: v0, .. } = sp_value(s, k + 1) {
            if let PRes::Parsed { v: ms, .. } = sp_list_more(s, k2) {
                let whole = seq![v0] + ms;
                assert(whole.len() == es.len());
                assert forall|q: int| 0 <= q < es.len() implies models_abs(
                    whole[q],
                    #[trigger] es[q],
                ) by {
                    if q == 0 {
                        assert(whole[0] == v0);
                    } else {
                        assert(whole[q] == ms[q - 1]);
                        assert(es[q] == rest[q - 1]);
                    }
                }
            }
        }
    }
}

/// Serialized pairs parse back in order, keys and values alike, up to the
/// closing brace at `close`.
proof fn lemma_rt_members(s: Seq<char>, j: int, en: Seq<(Seq<char>, AbsValue)>, close: int)
    requires
        forall|q: int| 0 <= q < en.len() ==> wf_val((#[trigger] en[q]).1),
        0 <= j,
        close == j + ser_entries(en).len(),
        close < s.len(),
        s.subrange(j, close) == ser_entries(en),
        s[close] == '}',
    ensures
        sp_members(s, j) matches PRes::Parsed { v, next } && next == close && v.len() == en.len()
            && (forall|q: int|
            0 <= q < en.len() ==> v[q].0 == (#[trigger] en[q]).0 && models_abs(v[q].1, en[q].1)),
    decreases size_entries(en), 2int,
{
    if en.len() == 0 {
        assert(close == j);
        assert(s[j] == '}');
        assert(sp_string(s, j) == (PRes::<StrModel>::Failed { kind: ErrorKind::NoMatch, at: j }));
    } else {
        let k0 = en.first().0;
        let a0 = en.first().1;
        let rest = en.drop_first();
        assert(wf_val(a0));
        assert forall|q: int| 0 <= q < rest.len() implies wf_val((#[trigger] rest[q]).1) by {
            assert(rest[q] == en[q + 1]);
        }
        lemma_split(s, j, ser_pair(k0, a0), ser_entries_more(rest));
        lemma_rt_pair(s, j, k0, a0, rest, close);
        if let PRes::Parsed { v: ps, .. } = sp_pair_tail(s, j, k0, j + esc(k0).len() + 2) {
            assert forall|q: int| 0 <= q < en.len() implies ps[q].0 == (#[trigger] en[q]).0
                && models_abs(ps[q].1, en[q].1) by {
                if q > 0 {
                    assert(rest[q - 1] == en[q]);
                }
            }
        }
    }
}

/// One spelled-out pair at `j`, followed by the remaining pairs and the
/// closing brace: the key decodes, the colon is found, the value parses, and
/// the rest continues.
#[verifier::rlimit(100)]
proof fn lemma_rt_pair(
    s: Seq<char>,
    j: int,
    k0: Seq<char>,
    a0: AbsValue,
    rest: Seq<(Seq<char>, AbsValue)>,
    close: int,
)
    requires
        wf_val(a0),
        forall|q: int| 0 <= q < rest.len() ==> wf_val((#[trigger] rest[q]).1),
        0 <= j,
        close == j + ser_pair(k0, a0).len() + ser_entries_more(rest).len(),
        close < s.len(),
        s.subrange(j, j + ser_pair(k0, a0).len()) == ser_pair(k0, a0),
        s.subrange(j + ser_pair(k0, a0).len(), close) == ser_entries_more(rest),
        s[close] == '}',
    ensures
        sp_string(s, j) matches PRes::Parsed { v: key, next: kk } && key.value == k0 && kk == j
            + esc(k0).len() + 2,
        sp_pair_tail(s, j, k0, j + esc(k0).len() + 2) matches PRes::Parsed { v, next }
            && next == close && v.len() == 1 + rest.len() && v[0].0 == k0 && models_abs(v[0].1, a0)
            && (forall|q: int|
            1 <= q < v.len() ==> v[q].0 == (#[trigger] rest[q - 1]).0 && models_abs(
                v[q].1,
                rest[q - 1].1,
            )),
    decreases size_val(a0) + size_entries(rest), 2int,
{
    let ep = esc(k0);
    let pl = ser_pair(k0, a0).len();
    lemma_split(s, j, seq!['"'], ep + (seq!['"'] + (seq![':'] + ser_val(a0))));
    lemma_split(s, j + 1, ep, seq!['"'] + (seq![':'] + ser_val(a0)));
    lemma_split(s, j + 1 + ep.len(), seq!['"'], seq![':'] + ser_val(a0));
    lemma_split(s, j + 2 + ep.len(), seq![':'], ser_val(a0));
    assert(s[j] == '"');
    assert(s[j + 1 + ep.len()] == '"');
    assert(s[j + 2 + ep.len()] == ':');
    lemma_escape_decode(s, j + 1, k0);
    let kk = j + 2 + ep.len();
    assert(sp_ws(s, kk) == kk);
    lemma_ser_first(a0);
    assert(s[kk + 1] == ser_val(a0)[0]);
    assert(sp_ws(s, kk + 1) == kk + 1);
    let k2 = kk + 1 + ser_val(a0).len();
    assert(k2 == j + pl);
    assert(at_boundary(s, k2)) by {
        if rest.len() == 0 {
            assert(k2 == close);
        } else {
            assert(s[k2] == ser_entries_more(rest)[0]);
        }
    }
    lemma_rt_value(s, kk + 1, a0);
    lemma_rt_members_more(s, k2, rest, close);
    if let PRes::Parsed { v: v0, .. } = sp_value(s, kk + 1) {
        if let PRes::Parsed { v: ps, .. } = sp_members_more(s, k2) {
            let whole = seq![(k0, v0)] + ps;
            assert(whole.len() == 1 + rest.len());
            assert(whole[0] == (k0, v0));
            assert(forall|q: int| 1 <= q < whole.len() ==> whole[q] == ps[q - 1]);
        }
    }
}

/// Serialized pairs after the first, each behind a comma, parse back in
/// order up to the closing brace at `close`.
#[verifier::rlimit(100)]
proof fn lemma_rt_members_more(s: Seq<char>, k: int, en: Seq<(Seq<char>, AbsValue)>, close: int)
    requires
        forall|q: int| 0 <= q < en.len() ==> wf_val((#[trigger] en[q]).1),
        0 <= k,
        close == k + ser_entries_more(en).len(),
        close < s.len(),
        s.subrange(k, close) == ser_entries_more(en),
        s[close] == '}',
    ensures
        sp_members_more(s, k) matches PRes::Parsed { v, next } && next == close && v.len()
            == en.len() && (forall|q: int|
            0 <= q < en.len() ==> v[q].0 == (#[trigger] en[q]).0 && models_abs(v[q].1, en[q].1)),
    decreases size_entries(en), 3int,
{
    if en.len() == 0 {
        assert(close == k);
        assert(s[k] == '}');
        assert(sp_ws(s, k) == k);
    } else {
        let k0 = en.first().0;
        let a0 = en.first().1;
        let rest = en.drop_first();
        assert(wf_val(a0));
        assert forall|q: int| 0 <= q < rest.len() implies wf_val((#[trigger] rest[q]).1) by {
            assert(rest[q] == en[q + 1]);
        }
        lemma_split(s, k, seq![','], ser_pair(k0, a0) + ser_entries_more(rest));
        lemma_split(s, k + 1, ser_pair(k0, a0), ser_entries_more(rest));
        assert(s[k] == ',');
        assert(sp_ws(s, k) == k);
        assert(size_val(a0) >= 1);
        lemma_rt_pair(s, k + 1, k0, a0, rest, close);
        assert(s[k + 1] == ser_pair(k0, a0)[0]);
        assert(sp_ws(s, k + 1) == k + 1) by {
            assert(ser_pair(k0, a0)[0] == '"');
        }
        if let PRes::Parsed { v: key, next: kk } = sp_string(s, k + 1) {
            if let PRes::Parsed { v: ps, .. } = sp_pair_tail(s, k + 1, k0, kk) {
                assert forall|q: int| 0 <= q < en.len() implies ps[q].0 == (#[trigger] en[q]).0
                    && models_abs(ps[q].1, en[q].1) by {
                    if q > 0 {
                        assert(rest[q - 1] == en[q]);
                    }
                }
            }
        }
    }
}

/// The round trip itself: serializing any well-formed value with standard
/// escaping and parsing the text back yields a tree denoting that value,
/// consuming the whole document.
pub proof fn lemma_roundtrip(a: AbsValue)
    requires
        wf_val(a),
    ensures
        sp_json(ser_val(a)) matches PRes::Parsed { v, next } && next == ser_val(a).len()
            && models_abs(v, a),
{
    let s = ser_val(a);
    lemma_ser_first(a);
    assert(sp_ws(s, 0) == 0);
    assert(s.subrange(0, s.len() as int) =~= s);
    assert(at_boundary(s, s.len() as int));
    lemma_rt_value(s, 0, a);
    assert(sp_ws(s, s.len() as int) == s.len());
}

} // verus!
