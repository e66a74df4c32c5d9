//! Arrangements of letter indices: the model on which the backtracking
//! search works.
//!
//! A letter is a number below 26. An arrangement is a sequence of letters in
//! which none occurs twice; a solution of an input is an arrangement of all
//! 26 letters whose codewords, one after the other, give the input.

use crate::code::spec_codeword;
use vstd::prelude::*;
use vstd::set_lib::{lemma_int_range, lemma_len_subset, lemma_subset_equality, set_int_range};

verus! {

/// The bytes of a sequence of characters that each fit in a byte.
pub open spec fn as_bytes(cs: Seq<char>) -> Seq<u8> {
    Seq::new(cs.len(), |k: int| cs[k] as u8)
}

/// The codeword of letter `i`, as bytes.
pub open spec fn code_bytes(i: int) -> Seq<u8> {
    as_bytes(spec_codeword(i))
}

/// The codewords of the letters of `p`, one after the other.
pub open spec fn encoding(p: Seq<u8>) -> Seq<u8>
    decreases p.len(),
{
    if p.len() == 0 {
        Seq::empty()
    } else {
        encoding(p.drop_last()) + code_bytes(p.last() as int)
    }
}

/// Every element of `p` is a letter, and none occurs twice.
pub open spec fn is_arrangement(p: Seq<u8>) -> bool {
    &&& forall|i: int| 0 <= i < p.len() ==> #[trigger] p[i] < 26
    &&& p.no_duplicates()
}

/// `q` arranges all 26 letters and encodes to `input`.
pub open spec fn is_solution(q: Seq<u8>, input: Seq<u8>) -> bool {
    &&& q.len() == 26
    &&& is_arrangement(q)
    &&& encoding(q) == input
}

/// `q` begins with `head`.
pub open spec fn extends(q: Seq<u8>, head: Seq<u8>) -> bool {
    head.len() <= q.len() && q.take(head.len() as int) == head
}

/// `a` comes strictly before `b` in lexicographic order.
pub open spec fn index_lt(a: Seq<u8>, b: Seq<u8>) -> bool {
    ||| exists|k: int| 0 <= k < a.len() && k < b.len() && a.take(k) == b.take(k) && a[k] < b[k]
    ||| a.len() < b.len() && b.take(a.len() as int) == a
}

/// `a` comes before `b` in lexicographic order, or is `b`.
pub open spec fn index_le(a: Seq<u8>, b: Seq<u8>) -> bool {
    a == b || index_lt(a, b)
}

/// The letters that `head` has not used.
pub open spec fn unused(head: Seq<u8>) -> Set<u8> {
    Set::new(|x: u8| x < 26 && !head.contains(x))
}

/// One more letter adds its codeword to the end of the encoding.
pub proof fn lemma_encoding_push(head: Seq<u8>, x: u8)
    ensures
        encoding(head.push(x)) == encoding(head) + code_bytes(x as int),
{
    assert(head.push(x).drop_last() =~= head);
}

/// The encoding of a longer beginning of `q` continues that of a shorter one.
pub proof fn lemma_encoding_take(q: Seq<u8>, k: int)
    requires
        0 <= k <= q.len(),
    ensures
        encoding(q.take(k)).len() <= encoding(q).len(),
        encoding(q).take(encoding(q.take(k)).len() as int) == encoding(q.take(k)),
    decreases q.len() - k,
{
    if k == q.len() {
        assert(q.take(k) =~= q);
    } else {
        lemma_encoding_take(q, k + 1);
        assert(q.take(k + 1) =~= q.take(k).push(q[k]));
        lemma_encoding_push(q.take(k), q[k]);
        let shorter = encoding(q.take(k));
        let longer = encoding(q.take(k + 1));
        assert(longer.take(shorter.len() as int) =~= shorter);
        assert(encoding(q).take(shorter.len() as int) =~= encoding(q).take(longer.len() as int).take(
            shorter.len() as int,
        ));
    }
}

/// What the letter after `head` must be in a solution that begins with
/// `head`: a letter that `head` has not used, and whose codeword stands in
/// the input where the encoding of `head` ends.
pub proof fn lemma_solution_step(q: Seq<u8>, input: Seq<u8>, head: Seq<u8>)
    requires
        is_solution(q, input),
        extends(q, head),
        head.len() < 26,
    ensures
        q[head.len() as int] < 26,
        !head.contains(q[head.len() as int]),
        extends(q, head.push(q[head.len() as int])),
        encoding(head).len() + code_bytes(q[head.len() as int] as int).len() <= input.len(),
        input.subrange(
            encoding(head).len() as int,
            (encoding(head).len() + code_bytes(q[head.len() as int] as int).len()) as int,
        ) == code_bytes(q[head.len() as int] as int),
{
    let n = head.len() as int;
    let x = q[n];
    assert(q.take(n + 1) =~= head.push(x));
    if head.contains(x) {
        let j = choose|j: int| 0 <= j < head.len() && head[j] == x;
        assert(q.take(n)[j] == q[j]);
    }
    lemma_encoding_push(head, x);
    lemma_encoding_take(q, n + 1);
    let e0 = encoding(head);
    let e1 = encoding(head.push(x));
    assert(input.subrange(e0.len() as int, e1.len() as int) =~= input.take(e1.len() as int).subrange(
        e0.len() as int,
        e1.len() as int,
    ));
    assert(e1.subrange(e0.len() as int, e1.len() as int) =~= code_bytes(x as int));
}

/// An arrangement has at most 26 letters, and with 26 it has every letter.
pub proof fn lemma_arrangement_len(p: Seq<u8>)
    requires
        is_arrangement(p),
    ensures
        p.len() <= 26,
        p.len() == 26 <==> unused(p) == Set::<u8>::empty(),
{
    let wide = p.map_values(|x: u8| x as int);
    p.lemma_no_duplicates_injective(|x: u8| x as int);
    wide.unique_seq_to_set();
    let all = set_int_range(0, 26);
    lemma_int_range(0, 26);
    assert(wide.to_set().subset_of(all)) by {
        assert forall|v: int| wide.to_set().contains(v) implies all.contains(v) by {
            let i = choose|i: int| 0 <= i < wide.len() && wide[i] == v;
            assert(p[i] < 26);
        }
    }
    lemma_len_subset(wide.to_set(), all);
    if p.len() == 26 {
        lemma_subset_equality(wide.to_set(), all);
        assert forall|x: u8| !unused(p).contains(x) by {
            if x < 26 {
                assert(all.contains(x as int));
                assert(wide.to_set().contains(x as int));
                let i = choose|i: int| 0 <= i < wide.len() && wide[i] == x as int;
                assert(p[i] == x);
            }
        }
        assert(unused(p) =~= Set::<u8>::empty());
    }
    if unused(p) == Set::<u8>::empty() {
        assert(all.subset_of(wide.to_set())) by {
            assert forall|v: int| all.contains(v) implies wide.to_set().contains(v) by {
                let x = v as u8;
                assert(!unused(p).contains(x));
                assert(p.contains(x));
                let i = choose|i: int| 0 <= i < p.len() && p[i] == x;
                assert(wide[i] == v);
            }
        }
        lemma_len_subset(all, wide.to_set());
    }
}

/// There are `n` letters below `n`.
proof fn lemma_letters_below(n: nat)
    requires
        n <= 26,
    ensures
        Set::new(|x: u8| x < n).finite(),
        Set::new(|x: u8| x < n).len() == n,
    decreases n,
{
    if n == 0 {
        assert(Set::new(|x: u8| x < n) =~= Set::<u8>::empty());
    } else {
        lemma_letters_below((n - 1) as nat);
        assert(Set::new(|x: u8| x < n) =~= Set::new(|x: u8| x < (n - 1)).insert((n - 1) as u8));
    }
}

/// The letters of an arrangement and the letters that it has not used are
/// 26 together.
pub proof fn lemma_unused_len(p: Seq<u8>)
    requires
        is_arrangement(p),
    ensures
        unused(p).finite(),
        p.len() + unused(p).len() == 26,
    decreases p.len(),
{
    if p.len() == 0 {
        lemma_letters_below(26);
        assert(unused(p) =~= Set::new(|x: u8| x < 26));
    } else {
        let head = p.drop_last();
        let x = p.last();
        assert(head.push(x) =~= p);
        assert(is_arrangement(head)) by {
            assert forall|i: int| 0 <= i < head.len() implies #[trigger] head[i] < 26 by {
                assert(p[i] < 26);
            }
            assert forall|i: int, j: int|
                0 <= i < head.len() && 0 <= j < head.len() && i != j implies head[i] != head[j] by {
                assert(p[i] != p[j]);
            }
        }
        assert(unused(head).contains(x)) by {
            assert(p[p.len() - 1] < 26);
            if head.contains(x) {
                let i = choose|i: int| 0 <= i < head.len() && head[i] == x;
                assert(p[i] == p[p.len() - 1]);
            }
        }
        lemma_unused_len(head);
        lemma_arrangement_push(head, x);
    }
}

/// Adding an unused letter to an arrangement gives an arrangement whose
/// unused letters are the others.
pub proof fn lemma_arrangement_push(head: Seq<u8>, x: u8)
    requires
        is_arrangement(head),
        unused(head).contains(x),
    ensures
        is_arrangement(head.push(x)),
        unused(head.push(x)) == unused(head).remove(x),
        unused(head) == unused(head.push(x)).insert(x),
        head.len() < 26,
{
    let longer = head.push(x);
    assert(unused(longer) =~= unused(head).remove(x)) by {
        assert forall|y: u8| unused(longer).contains(y) <==> unused(head).remove(x).contains(
            y,
        ) by {
            if head.contains(y) {
                let j = choose|j: int| 0 <= j < head.len() && head[j] == y;
                assert(longer[j] == y);
            }
            if longer.contains(y) && y != x {
                let j = choose|j: int| 0 <= j < longer.len() && longer[j] == y;
                assert(head[j] == y);
            }
            assert(longer[head.len() as int] == x);
        }
    }
    assert(unused(head) =~= unused(longer).insert(x));
    lemma_arrangement_len(longer);
}

/// Two sequences that begin alike and differ at the next letter are ordered
/// by that letter.
pub proof fn lemma_lt_by_letter(a: Seq<u8>, b: Seq<u8>, n: int)
    requires
        0 <= n < a.len(),
        n < b.len(),
        a.take(n) == b.take(n),
        a[n] < b[n],
    ensures
        index_lt(a, b),
{
}

/// Where `c` is at most `q` and both begin alike, the next letter of `c` is
/// at most that of `q`.
pub proof fn lemma_le_letter(c: Seq<u8>, q: Seq<u8>, n: int)
    requires
        index_le(c, q),
        c.len() == q.len(),
        0 <= n < c.len(),
        c.take(n) == q.take(n),
    ensures
        c[n] <= q[n],
{
    if c != q {
        assert(index_lt(c, q));
        let k = choose|k: int|
            0 <= k < c.len() && k < q.len() && c.take(k) == q.take(k) && c[k] < q[k];
        assert(0 <= k < c.len() && c.take(k) == q.take(k) && c[k] < q[k]);
        if k < n {
            assert(c.take(n)[k] == c[k]);
            assert(q.take(n)[k] == q[k]);
        } else if k > n {
            assert(c.take(k)[n] == c[n]);
            assert(q.take(k)[n] == q[n]);
        }
    }
}

/// No sequence comes before itself.
pub proof fn lemma_lt_irreflexive(a: Seq<u8>)
    ensures
        !index_lt(a, a),
{
}

/// Among sequences of one length, what comes before something that comes
/// before a third comes before the third.
pub proof fn lemma_lt_transitive(a: Seq<u8>, b: Seq<u8>, c: Seq<u8>)
    requires
        a.len() == b.len(),
        b.len() == c.len(),
        index_lt(a, b),
        index_lt(b, c),
    ensures
        index_lt(a, c),
{
    let j = choose|k: int| 0 <= k < a.len() && k < b.len() && a.take(k) == b.take(k) && a[k] < b[k];
    let k = choose|k: int| 0 <= k < b.len() && k < c.len() && b.take(k) == c.take(k) && b[k] < c[k];
    if j <= k {
        assert(a.take(j) =~= c.take(j)) by {
            assert(b.take(k).take(j) =~= b.take(j));
            assert(c.take(k).take(j) =~= c.take(j));
        }
        if j < k {
            assert(b.take(k)[j] == c.take(k)[j]);
        }
        lemma_lt_by_letter(a, c, j);
    } else {
        assert(a.take(k) =~= c.take(k)) by {
            assert(a.take(j).take(k) =~= a.take(k));
            assert(b.take(j).take(k) =~= b.take(k));
        }
        assert(a.take(j)[k] == b.take(j)[k]);
        lemma_lt_by_letter(a, c, k);
    }
}

/// Every element of `p` is a letter.
pub open spec fn all_letters(p: Seq<u8>) -> bool {
    forall|i: int| 0 <= i < p.len() ==> #[trigger] p[i] < 26
}

/// Among sequences of one length, one of zeros comes first.
pub proof fn lemma_zeros_first(c: Seq<u8>, q: Seq<u8>, n: int)
    requires
        c.len() == q.len(),
        0 <= n <= c.len(),
        c.take(n) == q.take(n),
        forall|j: int| n <= j < c.len() ==> c[j] == 0,
    ensures
        index_le(c, q),
    decreases c.len() - n,
{
    if n == c.len() {
        assert(c.take(n) =~= c);
        assert(q.take(n) =~= q);
    } else if q[n] > 0 {
        lemma_lt_by_letter(c, q, n);
    } else {
        assert(c.take(n + 1) =~= c.take(n).push(c[n]));
        assert(q.take(n + 1) =~= q.take(n).push(q[n]));
        lemma_zeros_first(c, q, n + 1);
    }
}

/// Where `c` follows `p` directly: `c` is `p` with the letter at `n` one
/// further and zeros behind it, and `p` has the last letter everywhere
/// behind `n`. Then what comes after `p` is what comes at or after `c`.
pub proof fn lemma_successor(p: Seq<u8>, c: Seq<u8>, n: int, q: Seq<u8>)
    requires
        p.len() == c.len(),
        c.len() == q.len(),
        0 <= n < p.len(),
        all_letters(q),
        c.take(n) == p.take(n),
        c[n] == p[n] + 1,
        forall|j: int| n < j < p.len() ==> #[trigger] p[j] >= 25,
        forall|j: int| n < j < p.len() ==> #[trigger] c[j] == 0,
    ensures
        index_lt(p, q) <==> index_le(c, q),
{
    if index_lt(p, q) {
        let k = choose|k: int|
            0 <= k < p.len() && k < q.len() && p.take(k) == q.take(k) && p[k] < q[k];
        if k > n {
            assert(p[k] >= 25);
            assert(q[k] < 26);
        }
        if k < n {
            assert(c.take(k) =~= c.take(n).take(k));
            assert(p.take(k) =~= p.take(n).take(k));
            assert(c.take(n)[k] == c[k]);
            assert(p.take(n)[k] == p[k]);
            lemma_lt_by_letter(c, q, k);
        } else if k == n {
            if q[n] > c[n] {
                lemma_lt_by_letter(c, q, n);
            } else {
                assert(c.take(n + 1) =~= c.take(n).push(c[n]));
                assert(q.take(n + 1) =~= q.take(n).push(q[n]));
                lemma_zeros_first(c, q, n + 1);
            }
        }
    }
    if index_le(c, q) {
        if c == q {
            lemma_lt_by_letter(p, q, n);
        } else {
            let k = choose|k: int|
                0 <= k < c.len() && k < q.len() && c.take(k) == q.take(k) && c[k] < q[k];
            if k < n {
                assert(c.take(k) =~= c.take(n).take(k));
                assert(p.take(k) =~= p.take(n).take(k));
                assert(c.take(n)[k] == c[k]);
                assert(p.take(n)[k] == p[k]);
                lemma_lt_by_letter(p, q, k);
            } else {
                assert(c.take(n) =~= c.take(k).take(n));
                assert(q.take(n) =~= q.take(k).take(n));
                if k > n {
                    assert(c.take(k)[n] == q.take(k)[n]);
                }
                lemma_lt_by_letter(p, q, n);
            }
        }
    }
}

/// Nothing made of letters comes after the sequence that has the last
/// letter everywhere.
pub proof fn lemma_nothing_follows(p: Seq<u8>, q: Seq<u8>)
    requires
        p.len() == q.len(),
        all_letters(q),
        forall|j: int| 0 <= j < p.len() ==> #[trigger] p[j] >= 25,
    ensures
        !index_lt(p, q),
{
    if index_lt(p, q) {
        let k = choose|k: int|
            0 <= k < p.len() && k < q.len() && p.take(k) == q.take(k) && p[k] < q[k];
        assert(p[k] >= 25);
        assert(q[k] < 26);
    }
}

} // verus!
