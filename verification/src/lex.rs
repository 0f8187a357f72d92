//! Lexicographic order on byte strings.

use vstd::prelude::*;

verus! {

/// `a` comes strictly before `b` in byte-lexicographic order: at the first
/// position where they differ `a` has the smaller byte, or `a` is a proper
/// prefix of `b`.
pub open spec fn lex_lt(a: Seq<u8>, b: Seq<u8>) -> bool {
    exists|i: int| #[trigger] diverges_below(a, b, i)
}

/// `a` and `b` agree on their first `i` bytes, and at position `i` either `a`
/// has ended while `b` goes on, or `a` holds the smaller byte.
pub open spec fn diverges_below(a: Seq<u8>, b: Seq<u8>, i: int) -> bool {
    &&& 0 <= i <= a.len()
    &&& i < b.len()
    &&& a.subrange(0, i) == b.subrange(0, i)
    &&& (i == a.len() || a[i] < b[i])
}

/// How two byte strings stand to each other.
#[derive(Clone, Copy, Debug, PartialEq, Eq, Structural)]
pub enum Rank {
    Before,
    Same,
    After,
}

/// The order is irreflexive.
pub proof fn lemma_lex_irreflexive(a: Seq<u8>)
    ensures
        !lex_lt(a, a),
{
    assert forall|i: int| !#[trigger] diverges_below(a, a, i) by {}
}

/// Two byte strings cannot each come before the other.
pub proof fn lemma_lex_asymmetric(a: Seq<u8>, b: Seq<u8>)
    requires
        lex_lt(a, b),
    ensures
        !lex_lt(b, a),
{
    let i = choose|i: int| #[trigger] diverges_below(a, b, i);
    assert forall|j: int| !#[trigger] diverges_below(b, a, j) by {
        if diverges_below(b, a, j) {
            if j < i {
                assert(a.subrange(0, i)[j] == b.subrange(0, i)[j]);
            } else if i < j {
                assert(b.subrange(0, j)[i] == a.subrange(0, j)[i]);
            }
        }
    }
}

/// The order is transitive.
pub proof fn lemma_lex_transitive(a: Seq<u8>, b: Seq<u8>, c: Seq<u8>)
    requires
        lex_lt(a, b),
        lex_lt(b, c),
    ensures
        lex_lt(a, c),
{
    let i = choose|i: int| #[trigger] diverges_below(a, b, i);
    let j = choose|j: int| #[trigger] diverges_below(b, c, j);
    let k = if i <= j { i } else { j };
    assert(a.subrange(0, k) =~= c.subrange(0, k)) by {
        assert forall|n: int| 0 <= n < k implies a[n] == c[n] by {
            assert(a.subrange(0, i)[n] == b.subrange(0, i)[n]);
            assert(b.subrange(0, j)[n] == c.subrange(0, j)[n]);
        }
    }
    if i < j {
        assert(b.subrange(0, j)[i] == c.subrange(0, j)[i]);
    } else if j < i {
        assert(a.subrange(0, i)[j] == b.subrange(0, i)[j]);
    }
    assert(diverges_below(a, c, k));
}

/// Any two byte strings are equal or one comes before the other.
pub proof fn lemma_lex_total(a: Seq<u8>, b: Seq<u8>)
    ensures
        a == b || lex_lt(a, b) || lex_lt(b, a),
{
    assert(a.subrange(0, 0) =~= b.subrange(0, 0));
    lemma_common_prefix(a, b, 0);
}

/// Induction behind totality: two strings that agree on their first `n`
/// bytes are equal or ordered.
proof fn lemma_common_prefix(a: Seq<u8>, b: Seq<u8>, n: int)
    requires
        0 <= n <= a.len(),
        n <= b.len(),
        a.subrange(0, n) == b.subrange(0, n),
    ensures
        a == b || lex_lt(a, b) || lex_lt(b, a),
    decreases a.len() - n,
{
    if n == a.len() {
        if n == b.len() {
            assert(a =~= a.subrange(0, n));
            assert(b =~= b.subrange(0, n));
        } else {
            assert(diverges_below(a, b, n));
        }
    } else if n == b.len() {
        assert(diverges_below(b, a, n));
    } else if a[n] < b[n] {
        assert(diverges_below(a, b, n));
    } else if b[n] < a[n] {
        assert(diverges_below(b, a, n));
    } else {
        assert(a.subrange(0, n + 1) =~= a.subrange(0, n).push(a[n]));
        assert(b.subrange(0, n + 1) =~= b.subrange(0, n).push(b[n]));
        lemma_common_prefix(a, b, n + 1);
    }
}

/// What `rank` returns for `a` against `b`.
pub open spec fn rank_of(a: Seq<u8>, b: Seq<u8>) -> Rank {
    if a == b {
        Rank::Same
    } else if lex_lt(a, b) {
        Rank::Before
    } else {
        Rank::After
    }
}

/// Compares two byte strings lexicographically.
pub fn rank(a: &[u8], b: &[u8]) -> (r: Rank)
    ensures
        r == rank_of(a@, b@),
        r == Rank::After ==> lex_lt(b@, a@),
{
    let mut i: usize = 0;
    while i < a.len() && i < b.len()
        invariant
            i <= a.len(),
            i <= b.len(),
            a@.subrange(0, i as int) == b@.subrange(0, i as int),
        decreases a.len() - i,
    {
        if a[i] < b[i] {
            proof {
                assert(diverges_below(a@, b@, i as int));
                assert(a@[i as int] != b@[i as int]);
            }
            return Rank::Before;
        }
        if b[i] < a[i] {
            proof {
                assert(diverges_below(b@, a@, i as int));
                lemma_lex_asymmetric(b@, a@);
                assert(a@[i as int] != b@[i as int]);
            }
            return Rank::After;
        }
        proof {
            assert(a@.subrange(0, i + 1) =~= a@.subrange(0, i as int).push(a@[i as int]));
            assert(b@.subrange(0, i + 1) =~= b@.subrange(0, i as int).push(b@[i as int]));
        }
        i += 1;
    }
    if i < b.len() {
        proof {
            assert(diverges_below(a@, b@, i as int));
        }
        Rank::Before
    } else if i < a.len() {
        proof {
            assert(diverges_below(b@, a@, i as int));
            lemma_lex_asymmetric(b@, a@);
        }
        Rank::After
    } else {
        proof {
            assert(a@ =~= a@.subrange(0, i as int));
            assert(b@ =~= b@.subrange(0, i as int));
            lemma_lex_irreflexive(a@);
        }
        Rank::Same
    }
}

} // verus!
