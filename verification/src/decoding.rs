//! What it means for a string of letters to decode a squashed string, and
//! how that meaning carries over to arrangements of letter indices.

use crate::arrangement::{
    all_letters, as_bytes, code_bytes, encoding, index_le, index_lt, is_arrangement, is_solution,
    lemma_lt_irreflexive, lemma_lt_transitive, lemma_zeros_first,
};
use crate::lex::{lex_le, lex_lt};
use crate::code::{lemma_codeword_shape, spec_codeword, spec_letter, spec_morse, spec_smorse};
use vstd::prelude::*;
use vstd::utf8::{
    encode_utf8, encode_utf8_decode_utf8, is_ascii_chars, is_ascii_chars_encode_utf8,
};

verus! {

/// `s` holds each of the letters `a` to `z` exactly once.
pub open spec fn is_alphabet_permutation(s: Seq<char>) -> bool {
    &&& s.len() == 26
    &&& forall|i: int| 0 <= i < s.len() ==> 'a' <= #[trigger] s[i] <= 'z'
    &&& s.no_duplicates()
}

/// `s` is a decoding of `code`: a permutation of the alphabet whose squashed
/// encoding is `code`.
pub open spec fn decodes(s: Seq<char>, code: Seq<char>) -> bool {
    is_alphabet_permutation(s) && spec_smorse(s) == code
}

/// All decodings of `code`.
pub open spec fn decodings(code: Seq<char>) -> Set<Seq<char>> {
    Set::new(|s: Seq<char>| decodes(s, code))
}

/// `s` is in `set`, and nothing in `set` comes before it.
pub open spec fn is_first(s: Seq<char>, set: Set<Seq<char>>) -> bool {
    set.contains(s) && forall|t: Seq<char>| set.contains(t) ==> lex_le(s, t)
}

/// The characters of a sequence of letter indices.
pub open spec fn letters(p: Seq<u8>) -> Seq<char> {
    Seq::new(p.len(), |k: int| spec_letter(p[k]))
}

/// The index of a letter's character.
pub open spec fn letter_index(c: char) -> u8 {
    ((c as u8) - 97) as u8
}

/// The letter indices of a sequence of characters.
pub open spec fn indices(s: Seq<char>) -> Seq<u8> {
    Seq::new(s.len(), |k: int| letter_index(s[k]))
}

/// The indices of the characters of letters are those letters.
pub proof fn lemma_indices_of_letters(p: Seq<u8>)
    requires
        all_letters(p),
    ensures
        indices(letters(p)) == p,
        forall|i: int| 0 <= i < p.len() ==> 'a' <= #[trigger] letters(p)[i] <= 'z',
{
    assert(indices(letters(p)) =~= p);
}

/// The characters of the indices of lowercase letters are those characters.
pub proof fn lemma_letters_of_indices(s: Seq<char>)
    requires
        forall|i: int| 0 <= i < s.len() ==> 'a' <= #[trigger] s[i] <= 'z',
    ensures
        letters(indices(s)) == s,
        all_letters(indices(s)),
{
    assert(letters(indices(s)) =~= s);
}

/// The squashed encoding of the characters of `p` has the bytes of the
/// encoding of `p`, and they are all ASCII.
pub proof fn lemma_smorse_of_letters(p: Seq<u8>)
    requires
        all_letters(p),
    ensures
        as_bytes(spec_smorse(letters(p))) == encoding(p),
        is_ascii_chars(spec_smorse(letters(p))),
    decreases p.len(),
{
    if p.len() == 0 {
        assert(as_bytes(spec_smorse(letters(p))) =~= encoding(p));
    } else {
        let x = p.last();
        lemma_smorse_of_letters(p.drop_last());
        assert(letters(p).drop_last() =~= letters(p.drop_last()));
        assert(letters(p).last() == spec_letter(x));
        assert(spec_morse(spec_letter(x)) == spec_codeword(x as int));
        lemma_codeword_shape(x as int);
        let before = spec_smorse(letters(p.drop_last()));
        assert(as_bytes(before + spec_codeword(x as int)) =~= as_bytes(before) + code_bytes(
            x as int,
        ));
    }
}

/// An arrangement of 26 letters is a permutation of the alphabet, and the
/// other way round.
pub proof fn lemma_permutation_of_letters(p: Seq<u8>)
    requires
        all_letters(p),
    ensures
        is_alphabet_permutation(letters(p)) <==> p.len() == 26 && is_arrangement(p),
{
    lemma_indices_of_letters(p);
    let s = letters(p);
    if s.no_duplicates() {
        assert forall|i: int, j: int| 0 <= i < p.len() && 0 <= j < p.len() && i != j implies p[i]
            != p[j] by {
            assert(s[i] != s[j]);
        }
    }
    if p.no_duplicates() {
        assert forall|i: int, j: int| 0 <= i < s.len() && 0 <= j < s.len() && i != j implies s[i]
            != s[j] by {
            assert(p[i] != p[j]);
        }
    }
}

/// An arrangement solves the bytes of a string exactly if its characters
/// decode the string.
pub proof fn lemma_solution_decodes(p: Seq<u8>, code: Seq<char>)
    requires
        all_letters(p),
    ensures
        is_solution(p, encode_utf8(code)) <==> decodes(letters(p), code),
{
    let squashed = spec_smorse(letters(p));
    lemma_smorse_of_letters(p);
    lemma_permutation_of_letters(p);
    is_ascii_chars_encode_utf8(squashed);
    assert(encode_utf8(squashed) =~= encoding(p));
    encode_utf8_decode_utf8(squashed);
    encode_utf8_decode_utf8(code);
}

/// The order of arrangements is the order of their characters.
pub proof fn lemma_order_of_letters(a: Seq<u8>, b: Seq<u8>)
    requires
        all_letters(a),
        all_letters(b),
    ensures
        index_lt(a, b) <==> lex_lt(letters(a), letters(b)),
        index_le(a, b) <==> lex_le(letters(a), letters(b)),
{
    let sa = letters(a);
    let sb = letters(b);
    lemma_indices_of_letters(a);
    lemma_indices_of_letters(b);
    if index_lt(a, b) {
        if a.len() < b.len() && b.take(a.len() as int) == a {
            assert(sb.take(sa.len() as int) =~= sa);
        } else {
            let k = choose|k: int|
                0 <= k < a.len() && k < b.len() && a.take(k) == b.take(k) && a[k] < b[k];
            assert(sa.take(k) =~= letters(a.take(k)));
            assert(sb.take(k) =~= letters(b.take(k)));
            assert(sa[k] < sb[k]);
        }
    }
    if lex_lt(sa, sb) {
        if sa.len() < sb.len() && sb.take(sa.len() as int) == sa {
            assert(b.take(a.len() as int) =~= indices(sb.take(sa.len() as int)));
        } else {
            let k = choose|k: int|
                0 <= k < sa.len() && k < sb.len() && sa.take(k) == sb.take(k) && sa[k] < sb[k];
            assert(a.take(k) =~= indices(sa.take(k)));
            assert(b.take(k) =~= indices(sb.take(k)));
            assert(a[k] < b[k]);
        }
    }
    if sa == sb {
        assert(a == b);
    }
}

/// Every permutation of the alphabet is among the decodings of its own
/// squashed encoding.
pub proof fn lemma_decodes_own_encoding(s: Seq<char>)
    requires
        is_alphabet_permutation(s),
    ensures
        decodings(spec_smorse(s)).contains(s),
{
}

/// The decodings of `code` whose letter indices are at or after `bound`.
pub open spec fn pending_from(code: Seq<char>, bound: Seq<u8>) -> Set<Seq<char>> {
    Set::new(|t: Seq<char>| decodes(t, code) && index_le(bound, indices(t)))
}

/// All decodings are at or after the sequence of 26 zeros.
pub proof fn lemma_pending_from_start(code: Seq<char>, zeros: Seq<u8>)
    requires
        zeros.len() == 26,
        forall|j: int| 0 <= j < 26 ==> #[trigger] zeros[j] == 0,
    ensures
        pending_from(code, zeros) == decodings(code),
{
    assert forall|t: Seq<char>| decodes(t, code) implies index_le(zeros, indices(t)) by {
        assert(zeros.take(0) =~= indices(t).take(0));
        lemma_zeros_first(zeros, indices(t), 0);
    }
    assert(pending_from(code, zeros) =~= decodings(code));
}

/// What the first solution among those at or after a bound says of the
/// decodings of the text: its letters are the first decoding among those
/// whose indices are at or after the bound.
pub proof fn lemma_first_solution(p: Seq<u8>, code: Seq<char>, bytes: Seq<u8>, bound: Seq<u8>)
    requires
        bytes == encode_utf8(code),
        is_solution(p, bytes),
        index_le(bound, p),
        forall|q: Seq<u8>| is_solution(q, bytes) && index_le(bound, q) ==> index_le(p, q),
    ensures
        is_first(letters(p), pending_from(code, bound)),
{
    lemma_solution_decodes(p, code);
    lemma_indices_of_letters(p);
    assert forall|t: Seq<char>| pending_from(code, bound).contains(t) implies lex_le(
        letters(p),
        t,
    ) by {
        lemma_letters_of_indices(t);
        lemma_solution_decodes(indices(t), code);
        lemma_order_of_letters(p, indices(t));
    }
}

/// No solution at or after a bound means no decoding at or after it.
pub proof fn lemma_no_solution(code: Seq<char>, bytes: Seq<u8>, bound: Seq<u8>)
    requires
        bytes == encode_utf8(code),
        forall|q: Seq<u8>| is_solution(q, bytes) ==> !index_le(bound, q),
    ensures
        pending_from(code, bound) == Set::<Seq<char>>::empty(),
{
    assert forall|t: Seq<char>| !pending_from(code, bound).contains(t) by {
        if decodes(t, code) {
            lemma_letters_of_indices(t);
            lemma_solution_decodes(indices(t), code);
        }
    }
    assert(pending_from(code, bound) =~= Set::<Seq<char>>::empty());
}

/// What is pending once the first pending solution `p` has been returned
/// and the cursor has moved on from it.
pub proof fn lemma_pending_after(
    p: Seq<u8>,
    code: Seq<char>,
    bytes: Seq<u8>,
    bound: Seq<u8>,
    moved: Seq<u8>,
    wrapped: bool,
)
    requires
        bytes == encode_utf8(code),
        bound.len() == 26,
        is_solution(p, bytes),
        index_le(bound, p),
        forall|q: Seq<u8>| is_solution(q, bytes) && index_le(bound, q) ==> index_le(p, q),
        !wrapped ==> forall|q: Seq<u8>|
            q.len() == 26 && all_letters(q) ==> (index_lt(p, q) <==> index_le(moved, q)),
        wrapped ==> forall|q: Seq<u8>| q.len() == 26 && all_letters(q) ==> !index_lt(p, q),
    ensures
        !wrapped ==> pending_from(code, moved) == pending_from(code, bound).remove(letters(p)),
        wrapped ==> pending_from(code, bound).remove(letters(p)) == Set::<Seq<char>>::empty(),
{
    lemma_indices_of_letters(p);
    let rest = pending_from(code, bound).remove(letters(p));
    assert forall|t: Seq<char>| decodes(t, code) implies (rest.contains(t) <==> index_lt(
        p,
        indices(t),
    )) by {
        let q = indices(t);
        lemma_letters_of_indices(t);
        lemma_solution_decodes(q, code);
        if index_lt(p, q) {
            lemma_lt_irreflexive(p);
            if bound != p {
                lemma_lt_transitive(bound, p, q);
            }
        }
    }
    if wrapped {
        assert forall|t: Seq<char>| !rest.contains(t) by {
            if decodes(t, code) {
                lemma_letters_of_indices(t);
            }
        }
        assert(rest =~= Set::<Seq<char>>::empty());
    } else {
        assert forall|t: Seq<char>| pending_from(code, moved).contains(t) <==> rest.contains(
            t,
        ) by {
            if decodes(t, code) {
                lemma_letters_of_indices(t);
            }
        }
        assert(pending_from(code, moved) =~= rest);
    }
}

} // verus!
