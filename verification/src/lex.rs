//! Lexicographic order of character sequences.

use vstd::prelude::*;

verus! {

/// `a` comes strictly before `b` in lexicographic order.
pub open spec fn lex_lt(a: Seq<char>, b: Seq<char>) -> bool {
    ||| exists|k: int| 0 <= k < a.len() && k < b.len() && a.take(k) == b.take(k) && a[k] < b[k]
    ||| a.len() < b.len() && b.take(a.len() as int) == a
}

/// `a` comes before `b` in lexicographic order, or is `b`.
pub open spec fn lex_le(a: Seq<char>, b: Seq<char>) -> bool {
    a == b || lex_lt(a, b)
}

/// Two sequences that begin alike and differ at the next place are ordered
/// by the characters at that place.
pub proof fn lemma_lex_lt_at(a: Seq<char>, b: Seq<char>, n: int)
    requires
        0 <= n < a.len(),
        n < b.len(),
        a.take(n) == b.take(n),
        a[n] < b[n],
    ensures
        lex_lt(a, b),
{
}

/// No sequence comes before itself.
pub proof fn lemma_lex_lt_irreflexive(a: Seq<char>)
    ensures
        !lex_lt(a, a),
{
}

/// Among sequences of one length, what comes before something that comes
/// before a third comes before the third.
pub proof fn lemma_lex_lt_transitive(a: Seq<char>, b: Seq<char>, c: Seq<char>)
    requires
        a.len() == b.len(),
        b.len() == c.len(),
        lex_lt(a, b),
        lex_lt(b, c),
    ensures
        lex_lt(a, c),
{
    let j = choose|k: int| 0 <= k < a.len() && k < b.len() && a.take(k) == b.take(k) && a[k] < b[k];
    let k = choose|k: int| 0 <= k < b.len() && k < c.len() && b.take(k) == c.take(k) && b[k] < c[k];
    if j <= k {
        assert(a.take(j) =~= c.take(j)) by {
            assert(b.take(k).take(j) =~= b.take(j));
            assert(c.take(k).take(j) =~= c.take(j));
        }
        if j < k {
            assert(b.take(k)[j] == b[j]);
            assert(c.take(k)[j] == c[j]);
        }
        lemma_lex_lt_at(a, c, j);
    } else {
        assert(a.take(k) =~= c.take(k)) by {
            assert(a.take(j).take(k) =~= a.take(k));
            assert(b.take(j).take(k) =~= b.take(k));
        }
        assert(a.take(j)[k] == a[k]);
        assert(b.take(j)[k] == b[k]);
        lemma_lex_lt_at(a, c, k);
    }
}

} // verus!
