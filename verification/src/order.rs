//! Lexicographic orders used to keep the database deterministic.
//!
//! Records are serialized in a fixed total order so that the persisted file
//! is identical across processes and runs given identical input.  The order
//! is lexicographic by Unicode code point over strings, extended
//! lexicographically to argument lists.

use vstd::prelude::*;

verus! {

/// Strict lexicographic order on character sequences, by code point.
pub open spec fn str_lt(a: Seq<char>, b: Seq<char>) -> bool
    decreases a.len(),
{
    if b.len() == 0 {
        false
    } else if a.len() == 0 {
        true
    } else if a[0] < b[0] {
        true
    } else if b[0] < a[0] {
        false
    } else {
        str_lt(a.drop_first(), b.drop_first())
    }
}

/// Strict lexicographic order on sequences of strings.
pub open spec fn strs_lt(a: Seq<Seq<char>>, b: Seq<Seq<char>>) -> bool
    decreases a.len(),
{
    if b.len() == 0 {
        false
    } else if a.len() == 0 {
        true
    } else if str_lt(a[0], b[0]) {
        true
    } else if str_lt(b[0], a[0]) {
        false
    } else {
        strs_lt(a.drop_first(), b.drop_first())
    }
}

/// Exactly one of `str_lt(a, b)`, `a == b`, `str_lt(b, a)` holds.
pub proof fn lemma_str_lt_trichotomy(a: Seq<char>, b: Seq<char>)
    ensures
        str_lt(a, b) || a == b || str_lt(b, a),
        str_lt(a, b) ==> a != b,
        str_lt(a, b) ==> !str_lt(b, a),
        a == b ==> !str_lt(a, b),
    decreases a.len(),
{
    if a.len() == 0 || b.len() == 0 {
        if a.len() == 0 && b.len() == 0 {
            assert(a =~= b);
        }
    } else if a[0] == b[0] {
        lemma_str_lt_trichotomy(a.drop_first(), b.drop_first());
        if a.drop_first() == b.drop_first() {
            assert forall|i: int| 0 <= i < a.len() implies a[i] == b[i] by {
                if i > 0 {
                    assert(a[i] == a.drop_first()[i - 1]);
                    assert(b[i] == b.drop_first()[i - 1]);
                }
            }
            assert(a =~= b);
        }
        if a == b {
            assert(a.drop_first() =~= b.drop_first());
        }
    } else {
        if a == b {
            assert(a[0] == b[0]);
        }
    }
}

/// `str_lt` is transitive.
pub proof fn lemma_str_lt_transitive(a: Seq<char>, b: Seq<char>, c: Seq<char>)
    requires
        str_lt(a, b),
        str_lt(b, c),
    ensures
        str_lt(a, c),
    decreases a.len(),
{
    if a.len() == 0 || b.len() == 0 || c.len() == 0 {
    } else if a[0] == b[0] && b[0] == c[0] {
        lemma_str_lt_transitive(a.drop_first(), b.drop_first(), c.drop_first());
    }
}

/// Exactly one of `strs_lt(a, b)`, `a == b`, `strs_lt(b, a)` holds.
pub proof fn lemma_strs_lt_trichotomy(a: Seq<Seq<char>>, b: Seq<Seq<char>>)
    ensures
        strs_lt(a, b) || a == b || strs_lt(b, a),
        strs_lt(a, b) ==> a != b,
        strs_lt(a, b) ==> !strs_lt(b, a),
        a == b ==> !strs_lt(a, b),
    decreases a.len(),
{
    if a.len() == 0 || b.len() == 0 {
        if a.len() == 0 && b.len() == 0 {
            assert(a =~= b);
        }
    } else {
        lemma_str_lt_trichotomy(a[0], b[0]);
        if a[0] == b[0] {
            lemma_strs_lt_trichotomy(a.drop_first(), b.drop_first());
            if a.drop_first() == b.drop_first() {
                assert forall|i: int| 0 <= i < a.len() implies a[i] == b[i] by {
                    if i > 0 {
                        assert(a[i] == a.drop_first()[i - 1]);
                        assert(b[i] == b.drop_first()[i - 1]);
                    }
                }
                assert(a =~= b);
            }
            if a == b {
                assert(a.drop_first() =~= b.drop_first());
            }
        } else {
            if a == b {
                assert(a[0] == b[0]);
            }
        }
    }
}

/// `strs_lt` is transitive.
pub proof fn lemma_strs_lt_transitive(a: Seq<Seq<char>>, b: Seq<Seq<char>>, c: Seq<Seq<char>>)
    requires
        strs_lt(a, b),
        strs_lt(b, c),
    ensures
        strs_lt(a, c),
    decreases a.len(),
{
    if a.len() == 0 || b.len() == 0 || c.len() == 0 {
    } else {
        lemma_str_lt_trichotomy(a[0], b[0]);
        lemma_str_lt_trichotomy(b[0], c[0]);
        if a[0] == b[0] && b[0] == c[0] {
            lemma_strs_lt_transitive(a.drop_first(), b.drop_first(), c.drop_first());
        } else if a[0] == b[0] {
        } else if b[0] == c[0] {
        } else {
            lemma_str_lt_transitive(a[0], b[0], c[0]);
            lemma_str_lt_trichotomy(a[0], c[0]);
        }
    }
}

} // verus!
