//! The mathematical model of parse results: the ghost value tree that the
//! executable tree is proved to denote, the outcome type of the grammar's
//! specification functions, and the last-write-wins bookkeeping for object
//! entries.

use vstd::prelude::*;

verus! {

/// What kind of failure a parse attempt reported.
///
/// `NoMatch` is recoverable: the value dispatcher uses it to try the next
/// grammar alternative. The other kinds are fatal and abort the whole parse.
#[derive(Clone, Copy, Debug, PartialEq, Eq, Structural)]
pub enum ErrorKind {
    NoMatch,
    InvalidEscape,
    InvalidSurrogatePair,
    UnterminatedLiteral,
    MalformedNumber,
}

/// Outcome of a grammar rule in the model: either a parsed denotation `v`
/// with `next`, the offset of the first unconsumed character, or a failure
/// kind with the offset `at` where it was detected.
pub enum PRes<T> {
    Parsed { v: T, next: int },
    Failed { kind: ErrorKind, at: int },
}

/// Model of one decoded string literal: its decoded characters, the offsets
/// of its span (opening quote inclusive to closing quote exclusive-end), and
/// the 1-based line and column of the opening quote.
pub struct StrModel {
    pub value: Seq<char>,
    pub pos: int,
    pub end: int,
    pub line: int,
    pub col: int,
}

/// Model of a parsed JSON value.
///
/// `Rest` keeps the raw source text of a number or of `true`/`false`/`null`;
/// `Str` is a decoded string literal with its position; `Array` is ordered;
/// `Object` maps decoded keys to values, keys unique, last write winning.
pub enum ValModel {
    Rest(Seq<char>),
    Str(StrModel),
    Array(Seq<ValModel>),
    Object(Seq<(Seq<char>, ValModel)>),
}

/// The value bound to `key`, if any.
pub open spec fn lookup(entries: Seq<(Seq<char>, ValModel)>, key: Seq<char>) -> Option<ValModel>
    decreases entries.len(),
{
    if entries.len() == 0 {
        None
    } else if entries.first().0 == key {
        Some(entries.first().1)
    } else {
        lookup(entries.drop_first(), key)
    }
}

/// Binds `key` to `val`: replaces the value of an existing entry with that
/// key, or appends a new entry.
pub open spec fn upsert(
    entries: Seq<(Seq<char>, ValModel)>,
    key: Seq<char>,
    val: ValModel,
) -> Seq<(Seq<char>, ValModel)>
    decreases entries.len(),
{
    if entries.len() == 0 {
        seq![(key, val)]
    } else if entries.first().0 == key {
        seq![(key, val)] + entries.drop_first()
    } else {
        seq![entries.first()] + upsert(entries.drop_first(), key, val)
    }
}

/// No two entries share a key.
pub open spec fn keys_unique(entries: Seq<(Seq<char>, ValModel)>) -> bool {
    forall|i: int, j: int|
        0 <= i < j < entries.len() ==> (#[trigger] entries[i]).0 != (#[trigger] entries[j]).0
}

/// After an upsert, the key is bound to the new value: the last write wins.
pub proof fn lemma_upsert_lookup(entries: Seq<(Seq<char>, ValModel)>, key: Seq<char>, val: ValModel)
    ensures
        lookup(upsert(entries, key, val), key) == Some(val),
    decreases entries.len(),
{
    if entries.len() != 0 && entries.first().0 != key {
        lemma_upsert_lookup(entries.drop_first(), key, val);
        let u = upsert(entries, key, val);
        assert(u.first() == entries.first());
        assert(u.drop_first() =~= upsert(entries.drop_first(), key, val));
    }
}

/// An upsert leaves every other key bound as it was.
pub proof fn lemma_upsert_other(
    entries: Seq<(Seq<char>, ValModel)>,
    key: Seq<char>,
    val: ValModel,
    other: Seq<char>,
)
    requires
        other != key,
    ensures
        lookup(upsert(entries, key, val), other) == lookup(entries, other),
    decreases entries.len(),
{
    if entries.len() == 0 {
        let u = upsert(entries, key, val);
        assert(u.first() == (key, val));
        assert(u.drop_first() =~= Seq::<(Seq<char>, ValModel)>::empty());
        assert(lookup(u, other) == lookup(u.drop_first(), other));
        assert(lookup(u.drop_first(), other) is None);
    } else if entries.first().0 == key {
        let u = upsert(entries, key, val);
        assert(u.first() == (key, val));
        assert(u.drop_first() =~= entries.drop_first());
        assert(lookup(u, other) == lookup(entries.drop_first(), other));
        assert(lookup(entries, other) == lookup(entries.drop_first(), other));
    } else {
        lemma_upsert_other(entries.drop_first(), key, val, other);
        let u = upsert(entries, key, val);
        assert(u.first() == entries.first());
        assert(u.drop_first() =~= upsert(entries.drop_first(), key, val));
        if entries.first().0 == other {
            assert(lookup(u, other) == Some(u.first().1));
            assert(lookup(entries, other) == Some(entries.first().1));
        } else {
            assert(lookup(u, other) == lookup(upsert(entries.drop_first(), key, val), other));
            assert(lookup(entries, other) == lookup(entries.drop_first(), other));
        }
    }
}

/// An upsert keeps keys unique.
pub proof fn lemma_upsert_unique(
    entries: Seq<(Seq<char>, ValModel)>,
    key: Seq<char>,
    val: ValModel,
)
    requires
        keys_unique(entries),
    ensures
        keys_unique(upsert(entries, key, val)),
    decreases entries.len(),
{
    let u = upsert(entries, key, val);
    if entries.len() == 0 {
        assert forall|i: int, j: int| 0 <= i < j < u.len() implies (#[trigger] u[i]).0 != (
        #[trigger] u[j]).0 by {}
    } else if entries.first().0 == key {
        assert forall|i: int, j: int| 0 <= i < j < u.len() implies (#[trigger] u[i]).0 != (
        #[trigger] u[j]).0 by {
            assert(u[0].0 == key);
            if i > 0 {
                assert(u[i] == entries[i]);
            }
            if j > 0 {
                assert(u[j] == entries[j]);
            }
        }
    } else {
        assert(keys_unique(entries.drop_first())) by {
            assert forall|i: int, j: int|
                0 <= i < j < entries.drop_first().len() implies (#[trigger] entries.drop_first()[i]).0
                != (#[trigger] entries.drop_first()[j]).0 by {
                assert(entries.drop_first()[i] == entries[i + 1]);
                assert(entries.drop_first()[j] == entries[j + 1]);
            }
        }
        lemma_upsert_unique(entries.drop_first(), key, val);
        lemma_upsert_keys(entries.drop_first(), key, val);
        let ud = upsert(entries.drop_first(), key, val);
        assert forall|i: int, j: int| 0 <= i < j < u.len() implies (#[trigger] u[i]).0 != (
        #[trigger] u[j]).0 by {
            assert(u[0] == entries.first());
            if i > 0 {
                assert(u[i] == ud[i - 1]);
            }
            if j > 0 {
                assert(u[j] == ud[j - 1]);
                if i == 0 {
                    if ud[j - 1].0 == entries.first().0 {
                        assert(exists|k: int|
                            0 <= k < entries.drop_first().len() && (#[trigger] entries.drop_first(
                            )[k]).0 == entries.first().0 || entries.first().0 == key);
                        assert(false);
                    }
                }
            }
        }
    }
}

/// When the key is already there, an upsert replaces the value of its first
/// entry in place.
pub proof fn lemma_upsert_update(
    entries: Seq<(Seq<char>, ValModel)>,
    key: Seq<char>,
    val: ValModel,
    idx: int,
)
    requires
        0 <= idx < entries.len(),
        entries[idx].0 == key,
        forall|q: int| 0 <= q < idx ==> (#[trigger] entries[q]).0 != key,
    ensures
        upsert(entries, key, val) =~= entries.update(idx, (key, val)),
    decreases idx,
{
    let u = upsert(entries, key, val);
    if idx == 0 {
        assert(entries.first().0 == key);
        assert(u =~= entries.update(0, (key, val)));
    } else {
        assert(entries[0].0 != key);
        let d = entries.drop_first();
        assert(d[idx - 1] == entries[idx]);
        assert forall|q: int| 0 <= q < idx - 1 implies (#[trigger] d[q]).0 != key by {
            assert(d[q] == entries[q + 1]);
        }
        lemma_upsert_update(d, key, val, idx - 1);
        assert(u =~= entries.update(idx, (key, val)));
    }
}

/// When the key is absent, an upsert appends a new entry at the end.
pub proof fn lemma_upsert_append(entries: Seq<(Seq<char>, ValModel)>, key: Seq<char>, val: ValModel)
    requires
        forall|q: int| 0 <= q < entries.len() ==> (#[trigger] entries[q]).0 != key,
    ensures
        upsert(entries, key, val) =~= entries.push((key, val)),
    decreases entries.len(),
{
    if entries.len() == 0 {
        assert(upsert(entries, key, val) =~= entries.push((key, val)));
    } else {
        assert(entries[0].0 != key);
        let d = entries.drop_first();
        assert forall|q: int| 0 <= q < d.len() implies (#[trigger] d[q]).0 != key by {
            assert(d[q] == entries[q + 1]);
        }
        lemma_upsert_append(d, key, val);
        assert(upsert(entries, key, val) =~= entries.push((key, val)));
    }
}

/// Every entry of an upsert result is either the inserted pair or an entry
/// that was already there.
pub proof fn lemma_upsert_entries(
    entries: Seq<(Seq<char>, ValModel)>,
    key: Seq<char>,
    val: ValModel,
)
    ensures
        forall|q: int|
            0 <= q < upsert(entries, key, val).len() ==> #[trigger] upsert(entries, key, val)[q]
                == (key, val) || exists|t: int|
                0 <= t < entries.len() && #[trigger] entries[t] == upsert(entries, key, val)[q],
    decreases entries.len(),
{
    let u = upsert(entries, key, val);
    if entries.len() == 0 {
    } else if entries.first().0 == key {
        assert forall|q: int|
            0 <= q < u.len() implies #[trigger] u[q] == (key, val) || exists|t: int|
            0 <= t < entries.len() && #[trigger] entries[t] == u[q] by {
            if q > 0 {
                assert(entries[q] == u[q]);
            }
        }
    } else {
        lemma_upsert_entries(entries.drop_first(), key, val);
        let ud = upsert(entries.drop_first(), key, val);
        assert forall|q: int|
            0 <= q < u.len() implies #[trigger] u[q] == (key, val) || exists|t: int|
            0 <= t < entries.len() && #[trigger] entries[t] == u[q] by {
            if q == 0 {
                assert(entries[0] == u[0]);
            } else {
                assert(u[q] == ud[q - 1]);
                if ud[q - 1] != (key, val) {
                    let t = choose|t: int|
                        0 <= t < entries.drop_first().len() && #[trigger] entries.drop_first()[t]
                            == ud[q - 1];
                    assert(entries[t + 1] == u[q]);
                }
            }
        }
    }
}

/// Every key of an upsert result is either the inserted key or a key that was
/// already there.
pub proof fn lemma_upsert_keys(entries: Seq<(Seq<char>, ValModel)>, key: Seq<char>, val: ValModel)
    ensures
        forall|i: int|
            0 <= i < upsert(entries, key, val).len() ==> (#[trigger] upsert(entries, key, val)[i]).0
                == key || exists|k: int|
                0 <= k < entries.len() && (#[trigger] entries[k]).0 == upsert(entries, key, val)[i].0,
    decreases entries.len(),
{
    let u = upsert(entries, key, val);
    if entries.len() == 0 {
    } else if entries.first().0 == key {
        assert forall|i: int|
            0 <= i < u.len() implies (#[trigger] u[i]).0 == key || exists|k: int|
            0 <= k < entries.len() && (#[trigger] entries[k]).0 == u[i].0 by {
            if i > 0 {
                assert(u[i] == entries[i]);
                assert(entries[i].0 == u[i].0);
            }
        }
    } else {
        lemma_upsert_keys(entries.drop_first(), key, val);
        let ud = upsert(entries.drop_first(), key, val);
        assert forall|i: int|
            0 <= i < u.len() implies (#[trigger] u[i]).0 == key || exists|k: int|
            0 <= k < entries.len() && (#[trigger] entries[k]).0 == u[i].0 by {
            if i == 0 {
                assert(u[0] == entries.first());
                assert(entries[0].0 == u[0].0);
            } else {
                assert(u[i] == ud[i - 1]);
                if ud[i - 1].0 != key {
                    let k = choose|k: int|
                        0 <= k < entries.drop_first().len() && (#[trigger] entries.drop_first(
                        )[k]).0 == ud[i - 1].0;
                    assert(entries[k + 1].0 == u[i].0);
                }
            }
        }
    }
}

} // verus!
