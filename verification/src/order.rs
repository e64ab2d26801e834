//! Lexicographic ordering of byte strings.
//!
//! Keys are ordered the way the memtable and the segment files need them:
//! byte by byte, with a proper prefix ordered before any of its extensions.

use vstd::prelude::*;

verus! {

/// `a` comes strictly before `b` in lexicographic byte order.
pub open spec fn lex_lt(a: Seq<u8>, b: Seq<u8>) -> bool
    decreases a.len(),
{
    &&& b.len() > 0
    &&& (a.len() == 0 || a[0] < b[0] || (a[0] == b[0] && lex_lt(a.skip(1), b.skip(1))))
}

/// `a` comes before `b`, or the two are equal.
pub open spec fn lex_le(a: Seq<u8>, b: Seq<u8>) -> bool {
    lex_lt(a, b) || a == b
}

/// Nothing comes before itself.
pub proof fn lemma_lex_irrefl(a: Seq<u8>)
    ensures
        !lex_lt(a, a),
    decreases a.len(),
{
    if a.len() > 0 {
        lemma_lex_irrefl(a.skip(1));
    }
}

/// Two sequences with equal heads and equal tails are equal.
proof fn lemma_eq_from_head_tail(a: Seq<u8>, b: Seq<u8>)
    requires
        a.len() > 0,
        b.len() > 0,
        a[0] == b[0],
        a.skip(1) == b.skip(1),
    ensures
        a == b,
{
    assert(a.skip(1).len() == a.len() - 1);
    assert(b.skip(1).len() == b.len() - 1);
    assert forall|i: int| 0 <= i < a.len() implies a[i] == b[i] by {
        if i > 0 {
            assert(a.skip(1)[i - 1] == a[i]);
            assert(b.skip(1)[i - 1] == b[i]);
        }
    }
    assert(a =~= b);
}

/// Any two byte strings are ordered one way, ordered the other way, or equal.
pub proof fn lemma_lex_trichotomy(a: Seq<u8>, b: Seq<u8>)
    ensures
        lex_lt(a, b) || lex_lt(b, a) || a == b,
    decreases a.len(),
{
    if a.len() == 0 {
        if b.len() == 0 {
            assert(a =~= b);
        }
    } else if b.len() > 0 && a[0] == b[0] {
        lemma_lex_trichotomy(a.skip(1), b.skip(1));
        if a.skip(1) == b.skip(1) {
            lemma_eq_from_head_tail(a, b);
        }
    }
}

/// The order is asymmetric: at most one direction can hold.
pub proof fn lemma_lex_asym(a: Seq<u8>, b: Seq<u8>)
    requires
        lex_lt(a, b),
    ensures
        !lex_lt(b, a),
        a != b,
    decreases a.len(),
{
    lemma_lex_irrefl(a);
    if a.len() > 0 && b.len() > 0 && a[0] == b[0] {
        lemma_lex_asym(a.skip(1), b.skip(1));
        if a == b {
            assert(a.skip(1) =~= b.skip(1));
        }
    } else {
        if a == b {
            assert(a.skip(1) =~= b.skip(1));
        }
    }
}

/// The order is transitive.
pub proof fn lemma_lex_trans(a: Seq<u8>, b: Seq<u8>, c: Seq<u8>)
    requires
        lex_lt(a, b),
        lex_lt(b, c),
    ensures
        lex_lt(a, c),
    decreases a.len(),
{
    if a.len() > 0 {
        if a[0] == b[0] && b[0] == c[0] {
            lemma_lex_trans(a.skip(1), b.skip(1), c.skip(1));
        }
    }
}

/// Transitivity with an equality allowed on the left.
pub proof fn lemma_lex_le_lt_trans(a: Seq<u8>, b: Seq<u8>, c: Seq<u8>)
    requires
        lex_le(a, b),
        lex_lt(b, c),
    ensures
        lex_lt(a, c),
{
    if lex_lt(a, b) {
        lemma_lex_trans(a, b, c);
    }
}

/// Transitivity with an equality allowed on the right.
pub proof fn lemma_lex_lt_le_trans(a: Seq<u8>, b: Seq<u8>, c: Seq<u8>)
    requires
        lex_lt(a, b),
        lex_le(b, c),
    ensures
        lex_lt(a, c),
{
    if lex_lt(b, c) {
        lemma_lex_trans(a, b, c);
    }
}

/// The order is antisymmetric: mutual `lex_le` means equality.
pub proof fn lemma_lex_le_antisym(a: Seq<u8>, b: Seq<u8>)
    requires
        lex_le(a, b),
        lex_le(b, a),
    ensures
        a == b,
{
    if a != b {
        lemma_lex_asym(a, b);
    }
}

/// A strict order found at the first differing byte.
proof fn lemma_lex_lt_by_first_diff(a: Seq<u8>, b: Seq<u8>, i: int)
    requires
        0 <= i < a.len(),
        i < b.len(),
        a.subrange(0, i) == b.subrange(0, i),
        a[i] < b[i],
    ensures
        lex_lt(a, b),
    decreases i,
{
    if i == 0 {
    } else {
        assert(a.subrange(0, i)[0] == a[0]);
        assert(b.subrange(0, i)[0] == b[0]);
        assert(a.skip(1).subrange(0, i - 1) =~= b.skip(1).subrange(0, i - 1)) by {
            assert forall|j: int| 0 <= j < i - 1 implies #[trigger] a.skip(1).subrange(0, i - 1)[j]
                == b.skip(1).subrange(0, i - 1)[j] by {
                assert(a.subrange(0, i)[j + 1] == a[j + 1]);
                assert(b.subrange(0, i)[j + 1] == b[j + 1]);
            }
        }
        lemma_lex_lt_by_first_diff(a.skip(1), b.skip(1), i - 1);
    }
}

/// A proper prefix comes before every extension of it.
proof fn lemma_lex_lt_by_prefix(a: Seq<u8>, b: Seq<u8>)
    requires
        a.len() < b.len(),
        a == b.subrange(0, a.len() as int),
    ensures
        lex_lt(a, b),
    decreases a.len(),
{
    if a.len() > 0 {
        assert(b.subrange(0, a.len() as int)[0] == b[0]);
        assert(a.skip(1) =~= b.skip(1).subrange(0, a.skip(1).len() as int)) by {
            assert forall|j: int| 0 <= j < a.len() - 1 implies a.skip(1)[j] == b.skip(1).subrange(
                0,
                a.len() - 1,
            )[j] by {
                assert(b.subrange(0, a.len() as int)[j + 1] == b[j + 1]);
            }
        }
        lemma_lex_lt_by_prefix(a.skip(1), b.skip(1));
    }
}

/// The three possible outcomes of comparing two keys.
pub enum KeyCmp {
    Lt,
    Eq,
    Gt,
}

/// Three-way lexicographic comparison of two byte strings.
pub fn key_compare(a: &[u8], b: &[u8]) -> (r: KeyCmp)
    ensures
        r is Lt <==> lex_lt(a@, b@),
        r is Eq <==> a@ == b@,
        r is Gt <==> lex_lt(b@, a@),
{
    proof {
        lemma_lex_trichotomy(a@, b@);
        lemma_lex_irrefl(a@);
    }
    let n = if a.len() < b.len() {
        a.len()
    } else {
        b.len()
    };
    let mut i: usize = 0;
    while i < n
        invariant
            0 <= i <= n,
            n <= a@.len(),
            n <= b@.len(),
            n == a@.len() || n == b@.len(),
            a@.subrange(0, i as int) =~= b@.subrange(0, i as int),
        decreases n - i,
    {
        let x = a[i];
        let y = b[i];
        if x < y {
            proof {
                lemma_lex_lt_by_first_diff(a@, b@, i as int);
                lemma_lex_asym(a@, b@);
            }
            return KeyCmp::Lt;
        }
        if x > y {
            proof {
                lemma_lex_lt_by_first_diff(b@, a@, i as int);
                lemma_lex_asym(b@, a@);
            }
            return KeyCmp::Gt;
        }
        proof {
            assert(a@.subrange(0, i + 1) =~= b@.subrange(0, i + 1)) by {
                assert forall|j: int| 0 <= j < i + 1 implies #[trigger] a@.subrange(0, i + 1)[j]
                    == b@.subrange(0, i + 1)[j] by {
                    if j < i {
                        assert(a@.subrange(0, i as int)[j] == b@.subrange(0, i as int)[j]);
                    }
                }
            }
        }
        i = i + 1;
    }
    if a.len() == b.len() {
        proof {
            assert(a@ =~= b@) by {
                assert forall|j: int| 0 <= j < a@.len() implies a@[j] == b@[j] by {
                    assert(a@.subrange(0, n as int)[j] == b@.subrange(0, n as int)[j]);
                }
            }
            lemma_lex_irrefl(a@);
        }
        KeyCmp::Eq
    } else if a.len() < b.len() {
        proof {
            assert(a@ =~= b@.subrange(0, a@.len() as int)) by {
                assert forall|j: int| 0 <= j < a@.len() implies a@[j] == b@.subrange(
                    0,
                    a@.len() as int,
                )[j] by {
                    assert(a@.subrange(0, n as int)[j] == b@.subrange(0, n as int)[j]);
                }
            }
            lemma_lex_lt_by_prefix(a@, b@);
            lemma_lex_asym(a@, b@);
        }
        KeyCmp::Lt
    } else {
        proof {
            assert(b@ =~= a@.subrange(0, b@.len() as int)) by {
                assert forall|j: int| 0 <= j < b@.len() implies b@[j] == a@.subrange(
                    0,
                    b@.len() as int,
                )[j] by {
                    assert(a@.subrange(0, n as int)[j] == b@.subrange(0, n as int)[j]);
                }
            }
            lemma_lex_lt_by_prefix(b@, a@);
            lemma_lex_asym(b@, a@);
        }
        KeyCmp::Gt
    }
}

} // verus!
