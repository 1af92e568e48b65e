//! Line and column arithmetic over the input text.
//!
//! A position in the input is a character offset; its line is 1 plus the
//! number of newlines before it, and its column is 1-based, counted from the
//! character after the last newline before it.

use vstd::prelude::*;

verus! {

/// Number of newline characters in `s`.
pub open spec fn newline_count(s: Seq<char>) -> nat
    decreases s.len(),
{
    if s.len() == 0 {
        0
    } else {
        newline_count(s.drop_last()) + if s.last() == '\n' {
            1nat
        } else {
            0nat
        }
    }
}

/// 1-based column of the position just after `s`: one more than the number of
/// characters after the last newline of `s`.
pub open spec fn column_after(s: Seq<char>) -> nat
    decreases s.len(),
{
    if s.len() == 0 {
        1
    } else if s.last() == '\n' {
        1
    } else {
        column_after(s.drop_last()) + 1
    }
}

/// 1-based line number of offset `i` in `s`.
pub open spec fn line_of(s: Seq<char>, i: int) -> nat {
    1 + newline_count(s.subrange(0, i))
}

/// 1-based column of offset `i` in `s`.
pub open spec fn col_of(s: Seq<char>, i: int) -> nat {
    column_after(s.subrange(0, i))
}

/// Extending a prefix by one character advances line and column the obvious
/// way: a newline starts a new line at column 1, anything else moves one
/// column to the right.
pub proof fn lemma_step(s: Seq<char>, i: int)
    requires
        0 <= i < s.len(),
    ensures
        s[i] == '\n' ==> line_of(s, i + 1) == line_of(s, i) + 1 && col_of(s, i + 1) == 1,
        s[i] != '\n' ==> line_of(s, i + 1) == line_of(s, i) && col_of(s, i + 1) == col_of(s, i)
            + 1,
{
    let p = s.subrange(0, i);
    let q = s.subrange(0, i + 1);
    assert(q.drop_last() =~= p);
    assert(q.last() == s[i]);
}

/// Lines and columns stay within one past the offset, so they fit in the
/// machine integers that carry them.
pub proof fn lemma_bounds(s: Seq<char>, i: int)
    requires
        0 <= i <= s.len(),
    ensures
        line_of(s, i) <= i + 1,
        col_of(s, i) <= i + 1,
    decreases i,
{
    if i == 0 {
        assert(s.subrange(0, 0) =~= Seq::<char>::empty());
    } else {
        lemma_bounds(s, i - 1);
        lemma_step(s, i - 1);
    }
}

/// Computes the 1-based line and column of offset `i` by scanning the prefix.
pub fn line_col_at(s: &Vec<char>, i: usize) -> (r: (usize, usize))
    requires
        i <= s@.len(),
        s@.len() < usize::MAX,
    ensures
        r.0 == line_of(s@, i as int),
        r.1 == col_of(s@, i as int),
{
    let mut line: usize = 1;
    let mut col: usize = 1;
    let mut j: usize = 0;
    proof {
        assert(s@.subrange(0, 0) =~= Seq::<char>::empty());
    }
    while j < i
        invariant
            0 <= j <= i <= s@.len(),
            s@.len() < usize::MAX,
            line == line_of(s@, j as int),
            col == col_of(s@, j as int),
        decreases i - j,
    {
        proof {
            lemma_step(s@, j as int);
            lemma_bounds(s@, j as int);
        }
        if s[j] == '\n' {
            line = line + 1;
            col = 1;
        } else {
            col = col + 1;
        }
        j = j + 1;
    }
    (line, col)
}

} // verus!
