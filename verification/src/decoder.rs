//! The backtracking decoder: from a squashed string to the alphabet
//! permutations that encode to it.

use crate::arrangement::{
    all_letters, code_bytes, encoding, extends, index_le, index_lt, is_arrangement, is_solution,
    lemma_arrangement_len, lemma_arrangement_push, lemma_encoding_push, lemma_le_letter,
    lemma_unused_len,
    lemma_lt_by_letter, lemma_nothing_follows, lemma_solution_step, lemma_successor,
    lemma_zeros_first, unused,
};
use crate::code::{codeword, lemma_codeword_shape, letter_name, spec_codeword};
use crate::decoding::{
    decodes, decodings, is_first, lemma_first_solution, lemma_no_solution, lemma_pending_after,
    lemma_pending_from_start, letters, pending_from,
};
use crate::lex::{lemma_lex_lt_irreflexive, lex_lt};
use std::collections::HashSet;
use vstd::prelude::*;
use vstd::std_specs::bits::{axiom_u32_trailing_zeros, u32_trailing_zeros};
use vstd::std_specs::hash::group_hash_axioms;
use vstd::string::{StringExecFns, StringSliceAdditionalSpecFns};
use vstd::utf8::is_ascii_chars_encode_utf8;

verus! {

broadcast use group_hash_axioms;

/// The bytes of a codeword's text are the codeword's symbols.
pub proof fn lemma_codeword_bytes(text: &str, letter: int)
    requires
        0 <= letter < 26,
        text@ == spec_codeword(letter),
    ensures
        text.spec_bytes() == code_bytes(letter),
{
    lemma_codeword_shape(letter);
    is_ascii_chars_encode_utf8(text@);
    assert(text.spec_bytes() =~= code_bytes(letter));
}

/// Whether `sym` stands in `input` at `pos`.
pub(crate) fn starts_with(input: &[u8], pos: usize, sym: &[u8]) -> (r: bool)
    requires
        pos <= input@.len(),
    ensures
        r == (pos + sym@.len() <= input@.len() && input@.subrange(
            pos as int,
            pos + sym@.len(),
        ) == sym@),
{
    if sym.len() > input.len() - pos {
        return false;
    }
    let mut k: usize = 0;
    while k < sym.len()
        invariant
            k <= sym@.len(),
            pos + sym@.len() <= input@.len() <= usize::MAX,
            input@.subrange(pos as int, pos + k) == sym@.take(k as int),
        decreases sym@.len() - k,
    {
        if input[pos + k] != sym[k] {
            assert(input@.subrange(pos as int, pos + sym@.len())[k as int] != sym@[k as int]);
            return false;
        }
        assert(input@.subrange(pos as int, pos + k + 1) =~= input@.subrange(
            pos as int,
            pos + k,
        ).push(input@[pos + k]));
        assert(sym@.take(k + 1) =~= sym@.take(k as int).push(sym@[k as int]));
        k += 1;
    }
    assert(sym@.take(k as int) =~= sym@);
    true
}

/// What a search below `head` may return when the input is used up or no
/// letter is left: it has found a solution exactly if both hold.
proof fn lemma_leaf(input: Seq<u8>, head: Seq<u8>, pos: int)
    requires
        is_arrangement(head),
        0 <= pos <= input.len(),
        input.take(pos) == encoding(head),
        pos == input.len() || head.len() == 26,
    ensures
        pos == input.len() && head.len() == 26 ==> is_solution(head, input),
        forall|q: Seq<u8>| is_solution(q, input) && extends(q, head) ==> q == head,
        !(pos == input.len() && head.len() == 26) ==> forall|q: Seq<u8>|
            is_solution(q, input) ==> !extends(q, head),
{
    lemma_arrangement_len(head);
    assert(input.take(input.len() as int) =~= input);
    assert forall|q: Seq<u8>| is_solution(q, input) && extends(q, head) implies q == head
        && pos == input.len() && head.len() == 26 by {
        if head.len() < 26 {
            lemma_solution_step(q, input, head);
            lemma_codeword_shape(q[head.len() as int] as int);
        } else {
            assert(q.take(26) =~= q);
        }
    }
}

/// Depth-first search for the first solution of `input` that begins with
/// the letters in `prefix`, which encode to the first `pos` bytes of the
/// input. `alphabet` holds the letters that `prefix` has not used, before
/// the call and after it: none is left after a solution was found.
fn alpha_search(input: &[u8], pos: usize, alphabet: &mut HashSet<u8>, prefix: &mut Vec<u8>) -> (found:
    bool)
    requires
        is_arrangement(old(prefix)@),
        old(alphabet)@ == unused(old(prefix)@),
        pos <= input@.len(),
        input@.take(pos as int) == encoding(old(prefix)@),
    ensures
        is_arrangement(final(prefix)@),
        final(alphabet)@ == unused(final(prefix)@),
        final(alphabet)@.finite(),
        final(prefix)@.len() + final(alphabet)@.len() == 26,
        found ==> is_solution(final(prefix)@, input@) && extends(final(prefix)@, old(prefix)@)
            && final(alphabet)@ == Set::<u8>::empty() && forall|q: Seq<u8>|
            is_solution(q, input@) && extends(q, old(prefix)@) ==> index_le(final(prefix)@, q),
        !found ==> final(prefix)@ == old(prefix)@ && final(alphabet)@ == old(alphabet)@
            && forall|q: Seq<u8>| is_solution(q, input@) ==> !extends(q, old(prefix)@),
    decreases 26 - old(prefix)@.len(),
{
    let ghost head = prefix@;
    proof {
        lemma_arrangement_len(head);
        lemma_unused_len(head);
    }
    if pos == input.len() || alphabet.is_empty() {
        proof {
            lemma_leaf(input@, head, pos as int);
            assert(extends(head, head)) by {
                assert(head.take(head.len() as int) =~= head);
            }
        }
        return pos == input.len() && alphabet.is_empty();
    }
    let ghost n = head.len() as int;
    let mut chb: u8 = 0;
    while chb < 26
        invariant
            chb <= 26,
            head == old(prefix)@,
            prefix@ == head,
            alphabet@ == unused(head),
            is_arrangement(head),
            n == head.len(),
            n < 26,
            pos <= input@.len() <= usize::MAX,
            input@.take(pos as int) == encoding(head),
            forall|q: Seq<u8>| is_solution(q, input@) && extends(q, head) ==> q[n] >= chb,
        decreases 26 - chb,
    {
        let text = codeword(chb);
        let sym = text.as_bytes();
        proof {
            lemma_codeword_bytes(text, chb as int);
            assert(encoding(head).len() == pos) by {
                assert(input@.take(pos as int).len() == pos);
            }
        }
        if starts_with(input, pos, sym) {
            if alphabet.remove(&chb) {
                prefix.push(chb);
                proof {
                    lemma_arrangement_push(head, chb);
                    lemma_encoding_push(head, chb);
                    assert(input@.take(pos + sym@.len()) =~= input@.take(pos as int)
                        + input@.subrange(pos as int, pos + sym@.len()));
                }
                if alpha_search(input, pos + sym.len(), alphabet, prefix) {
                    proof {
                        let full = prefix@;
                        assert(full.take(n) =~= full.take(n + 1).take(n));
                        assert(head.push(chb).take(n) =~= head);
                        assert forall|q: Seq<u8>|
                            is_solution(q, input@) && extends(q, head) implies index_le(
                            full,
                            q,
                        ) by {
                            lemma_solution_step(q, input@, head);
                            if q[n] > chb {
                                assert(full.take(n + 1)[n] == chb);
                                lemma_lt_by_letter(full, q, n);
                            }
                        }
                    }
                    return true;
                }
                prefix.pop();
                alphabet.insert(chb);
                proof {
                    assert(prefix@ =~= head);
                }
            }
        }
        proof {
            assert forall|q: Seq<u8>| is_solution(q, input@) && extends(q, head) implies q[n]
                != chb by {
                lemma_solution_step(q, input@, head);
            }
        }
        chb += 1;
    }
    proof {
        assert forall|q: Seq<u8>| is_solution(q, input@) implies !extends(q, head) by {
            if extends(q, head) {
                lemma_solution_step(q, input@, head);
            }
        }
    }
    false
}

/// The letters of an arrangement, as text.
fn spell(p: &[u8]) -> (s: String)
    requires
        all_letters(p@),
    ensures
        s@ == letters(p@),
{
    let mut out = String::new();
    let mut i: usize = 0;
    while i < p.len()
        invariant
            i <= p@.len(),
            all_letters(p@),
            out@ == letters(p@.take(i as int)),
        decreases p@.len() - i,
    {
        out.append(letter_name(p[i]));
        proof {
            assert(letters(p@.take(i + 1)) =~= letters(p@.take(i as int)) + seq![
                letters(p@)[i as int],
            ]);
        }
        i += 1;
    }
    assert(p@.take(i as int) =~= p@);
    out
}

/// The first permutation of the alphabet that encodes to `code`, if there
/// is any.
pub fn smalpha(code: &str) -> (r: Option<String>)
    ensures
        match r {
            Some(s) => is_first(s@, decodings(code@)),
            None => decodings(code@) == Set::<Seq<char>>::empty(),
        },
{
    let mut alphabet: HashSet<u8> = HashSet::new();
    let mut chb: u8 = 0;
    while chb < 26
        invariant
            chb <= 26,
            alphabet@ == Set::new(|x: u8| x < chb),
        decreases 26 - chb,
    {
        alphabet.insert(chb);
        chb += 1;
        assert(alphabet@ =~= Set::new(|x: u8| x < chb));
    }
    let mut prefix: Vec<u8> = Vec::with_capacity(26);
    let input = code.as_bytes();
    let ghost zeros = Seq::new(26, |j: int| 0u8);
    proof {
        assert(alphabet@ =~= unused(prefix@));
        assert(input@.take(0) =~= encoding(prefix@));
        assert forall|q: Seq<u8>| is_solution(q, input@) implies extends(q, prefix@)
            && index_le(zeros, q) by {
            assert(q.take(0) =~= prefix@);
            assert(zeros.take(0) =~= q.take(0));
            lemma_zeros_first(zeros, q, 0);
        }
        lemma_pending_from_start(code@, zeros);
    }
    if alpha_search(input, 0, &mut alphabet, &mut prefix) {
        proof {
            lemma_first_solution(prefix@, code@, input@, zeros);
        }
        Some(spell(prefix.as_slice()))
    } else {
        proof {
            lemma_no_solution(code@, input@, zeros);
        }
        None
    }
}

/// The mask in which every letter is on.
const FULL_ALPHABET: u32 = 0x03ff_ffff;

/// Whether letter `i` is on in `mask`.
spec fn is_on(mask: u32, i: u8) -> bool {
    mask & (1u32 << (i as u32)) != 0
}

/// `mask` has the letters on that `head` has not used, and no others.
spec fn mask_matches(mask: u32, head: Seq<u8>) -> bool {
    &&& mask <= FULL_ALPHABET
    &&& forall|i: u8| i < 26 ==> (#[trigger] is_on(mask, i) <==> !head.contains(i))
}

/// A mask that matches an arrangement is zero exactly if the arrangement
/// has all 26 letters.
proof fn lemma_mask_zero(mask: u32, head: Seq<u8>)
    requires
        mask_matches(mask, head),
        is_arrangement(head),
    ensures
        mask == 0 <==> head.len() == 26,
{
    lemma_arrangement_len(head);
    if mask == 0 {
        assert forall|x: u8| !unused(head).contains(x) by {
            if x < 26 {
                let sh = x as u32;
                assert(0u32 & (1u32 << sh) == 0) by (bit_vector);
                assert(!is_on(mask, x));
            }
        }
        assert(unused(head) =~= Set::<u8>::empty());
    } else {
        axiom_u32_trailing_zeros(mask);
        let t = u32_trailing_zeros(mask);
        assert(t < 26 && mask & (1u32 << t) != 0) by (bit_vector)
            requires
                t < 32,
                (mask >> t) & 1u32 == 1u32,
                mask <= 0x03ff_ffffu32,
        ;
        let x = t as u8;
        assert(is_on(mask, x));
        assert(unused(head).contains(x));
    }
}

/// Resumable search for the permutations of the alphabet that encode to a
/// squashed string, in lexicographic order.
///
/// The search keeps the letter chosen at each of the 26 levels; after a
/// result it moves that cursor on by one, so that the next search begins
/// behind the result.
pub struct AlphaSearch<'a> {
    input: &'a str,
    alphabet: u32,
    prefix: [u8; 26],
    done: bool,
}

impl<'a> AlphaSearch<'a> {
    /// The squashed string that is decoded.
    pub closed spec fn code(&self) -> Seq<char> {
        self.input@
    }

    /// The decodings that the search has yet to return.
    pub closed spec fn pending(&self) -> Set<Seq<char>> {
        if self.done {
            Set::empty()
        } else {
            pending_from(self.input@, self.prefix@)
        }
    }

    /// What is pending is a decoding of the squashed string.
    pub proof fn lemma_pending_decodes(&self, t: Seq<char>)
        requires
            self.pending().contains(t),
        ensures
            decodes(t, self.code()),
    {
    }

    /// A search of `code` that has returned nothing yet.
    pub fn new(code: &'a str) -> (r: AlphaSearch<'a>)
        ensures
            r.code() == code@,
            r.pending() == decodings(code@),
    {
        let r = AlphaSearch { input: code, alphabet: FULL_ALPHABET, prefix: [0;26], done: false };
        proof {
            lemma_pending_from_start(code@, r.prefix@);
        }
        r
    }

    /// Puts letter `idx` back among the unused ones.
    fn add_alpha(&mut self, idx: u8)
        requires
            idx < 26,
            old(self).alphabet <= FULL_ALPHABET,
        ensures
            final(self).alphabet == old(self).alphabet | (1u32 << (idx as u32)),
            final(self).alphabet <= FULL_ALPHABET,
            forall|j: u8|
                j < 26 ==> (#[trigger] is_on(final(self).alphabet, j) <==> is_on(old(self).alphabet, j)
                    || j == idx),
            final(self).input == old(self).input,
            final(self).prefix == old(self).prefix,
            final(self).done == old(self).done,
    {
        let ghost m = self.alphabet;
        let sh = idx as u32;
        self.alphabet |= 1u32 << sh;
        proof {
            assert(m | (1u32 << sh) <= 0x03ff_ffffu32) by (bit_vector)
                requires
                    m <= 0x03ff_ffffu32,
                    sh < 26,
            ;
            assert forall|j: u8| j < 26 implies (#[trigger] is_on(self.alphabet, j) <==> is_on(m, j)
                || j == idx) by {
                let sj = j as u32;
                assert(((m | (1u32 << sh)) & (1u32 << sj) != 0) <==> (m & (1u32 << sj) != 0 || sj
                    == sh)) by (bit_vector)
                    requires
                        sh < 26,
                        sj < 26,
                ;
            }
        }
    }

    /// Whether letter `idx` is unused.
    fn contains_alpha(&self, idx: u8) -> (r: bool)
        requires
            idx < 26,
        ensures
            r == is_on(self.alphabet, idx),
    {
        let sh = idx as u32;
        self.alphabet & (1u32 << sh) > 0
    }

    /// Takes letter `idx` from the unused ones; says whether it was there.
    fn remove_alpha(&mut self, idx: u8) -> (was: bool)
        requires
            idx < 26,
        ensures
            was == is_on(old(self).alphabet, idx),
            final(self).alphabet == old(self).alphabet & !(1u32 << (idx as u32)),
            final(self).alphabet <= old(self).alphabet,
            was ==> old(self).alphabet == final(self).alphabet | (1u32 << (idx as u32)),
            !was ==> final(self).alphabet == old(self).alphabet,
            forall|j: u8|
                j < 26 ==> (#[trigger] is_on(final(self).alphabet, j) <==> is_on(old(self).alphabet, j)
                    && j != idx),
            final(self).input == old(self).input,
            final(self).prefix == old(self).prefix,
            final(self).done == old(self).done,
    {
        let is_set = self.contains_alpha(idx);
        let ghost m = self.alphabet;
        let sh = idx as u32;
        self.alphabet &= !(1u32 << sh);
        proof {
            assert(m & !(1u32 << sh) <= m) by (bit_vector);
            assert(m & (1u32 << sh) != 0 ==> m == (m & !(1u32 << sh)) | (1u32 << sh))
                by (bit_vector);
            assert(m & (1u32 << sh) == 0 ==> m == m & !(1u32 << sh)) by (bit_vector);
            assert forall|j: u8| j < 26 implies (#[trigger] is_on(self.alphabet, j) <==> is_on(m, j)
                && j != idx) by {
                let sj = j as u32;
                assert(((m & !(1u32 << sh)) & (1u32 << sj) != 0) <==> (m & (1u32 << sj) != 0 && sj
                    != sh)) by (bit_vector)
                    requires
                        sh < 26,
                        sj < 26,
                ;
            }
        }
        is_set
    }

    /// Depth-first search for the first solution that begins with the first
    /// `idx` letters of the cursor, which encode to the first `pos` bytes of
    /// the input. When `resume` is set, only solutions at or after the
    /// cursor count; otherwise every solution that begins so does.
    fn next_inner(&mut self, pos: usize, idx: usize, resume: bool) -> (found: bool)
        requires
            idx <= 26,
            is_arrangement(old(self).prefix@.take(idx as int)),
            mask_matches(old(self).alphabet, old(self).prefix@.take(idx as int)),
            pos <= old(self).input.spec_bytes().len(),
            old(self).input.spec_bytes().take(pos as int) == encoding(
                old(self).prefix@.take(idx as int),
            ),
        ensures
            final(self).input == old(self).input,
            final(self).done == old(self).done,
            final(self).alphabet == old(self).alphabet,
            final(self).prefix@.take(idx as int) == old(self).prefix@.take(idx as int),
            found ==> is_solution(final(self).prefix@, old(self).input.spec_bytes()),
            found && resume ==> index_le(old(self).prefix@, final(self).prefix@),
            found ==> forall|q: Seq<u8>|
                is_solution(q, old(self).input.spec_bytes()) && extends(
                    q,
                    old(self).prefix@.take(idx as int),
                ) && (resume ==> index_le(old(self).prefix@, q)) ==> index_le(
                    final(self).prefix@,
                    q,
                ),
            !found ==> forall|q: Seq<u8>|
                is_solution(q, old(self).input.spec_bytes()) && extends(
                    q,
                    old(self).prefix@.take(idx as int),
                ) ==> resume && !index_le(old(self).prefix@, q),
        decreases 26 - idx,
    {
        let input = self.input.as_bytes();
        let ghost bytes = self.input.spec_bytes();
        let ghost cursor = self.prefix@;
        let ghost head = cursor.take(idx as int);
        proof {
            lemma_mask_zero(self.alphabet, head);
        }
        if pos == input.len() || self.alphabet == 0 {
            proof {
                lemma_leaf(bytes, head, pos as int);
                assert(cursor.take(26) =~= cursor);
            }
            return pos == input.len() && self.alphabet == 0;
        }
        let start: u8 = if resume {
            self.prefix[idx]
        } else {
            0
        };
        proof {
            if resume {
                assert forall|q: Seq<u8>|
                    is_solution(q, bytes) && extends(q, head) && index_le(cursor, q) implies q[idx as int]
                    >= start by {
                    lemma_le_letter(cursor, q, idx as int);
                }
            }
        }
        let mut chb: u8 = start;
        while chb < 26
            invariant
                start <= chb,
                idx < 26,
                bytes == old(self).input.spec_bytes(),
                input@ == bytes,
                cursor == old(self).prefix@,
                head == cursor.take(idx as int),
                resume ==> start == cursor[idx as int],
                self.input == old(self).input,
                self.done == old(self).done,
                self.alphabet == old(self).alphabet,
                self.prefix@.take(idx as int) == head,
                resume && chb == start ==> self.prefix@ == cursor,
                is_arrangement(head),
                mask_matches(self.alphabet, head),
                pos <= bytes.len() <= usize::MAX,
                bytes.take(pos as int) == encoding(head),
                forall|q: Seq<u8>|
                    is_solution(q, bytes) && extends(q, head) && (resume ==> index_le(cursor, q))
                        ==> q[idx as int] >= chb,
            decreases 26 - chb,
        {
            let text = codeword(chb);
            let sym = text.as_bytes();
            proof {
                lemma_codeword_bytes(text, chb as int);
                assert(encoding(head).len() == pos) by {
                    assert(bytes.take(pos as int).len() == pos);
                }
            }
            if starts_with(input, pos, sym) {
                if self.remove_alpha(chb) {
                    self.prefix[idx] = chb;
                    let ghost at_call = self.prefix@;
                    proof {
                        assert(at_call.take(idx + 1) =~= head.push(chb));
                        assert(unused(head).contains(chb));
                        lemma_arrangement_push(head, chb);
                        lemma_encoding_push(head, chb);
                        assert(bytes.take(pos + sym@.len()) =~= bytes.take(pos as int)
                            + bytes.subrange(pos as int, pos + sym@.len()));
                        assert forall|i: u8| i < 26 implies (#[trigger] is_on(self.alphabet, i)
                            <==> !head.push(chb).contains(i)) by {
                            assert(unused(head.push(chb)).contains(i) <==> unused(head).remove(
                                chb,
                            ).contains(i));
                        }
                        if resume && chb == start {
                            assert(at_call =~= cursor);
                        }
                    }
                    let found = self.next_inner(pos + sym.len(), idx + 1, resume && chb == start);
                    self.add_alpha(chb);
                    proof {
                        assert(self.prefix@.take(idx as int) =~= self.prefix@.take(idx + 1).take(
                            idx as int,
                        ));
                        assert(head.push(chb).take(idx as int) =~= head);
                    }
                    if found {
                        proof {
                            let full = self.prefix@;
                            assert(full.take(idx + 1)[idx as int] == chb);
                            if resume && chb > start {
                                lemma_lt_by_letter(cursor, full, idx as int);
                            }
                            assert forall|q: Seq<u8>|
                                is_solution(q, bytes) && extends(q, head) && (resume ==> index_le(
                                    cursor,
                                    q,
                                )) implies index_le(full, q) by {
                                lemma_solution_step(q, bytes, head);
                                if q[idx as int] > chb {
                                    lemma_lt_by_letter(full, q, idx as int);
                                }
                            }
                        }
                        return true;
                    }
                }
            }
            proof {
                assert forall|q: Seq<u8>|
                    is_solution(q, bytes) && extends(q, head) && (resume ==> index_le(
                        cursor,
                        q,
                    )) implies q[idx as int] != chb by {
                    lemma_solution_step(q, bytes, head);
                }
            }
            chb += 1;
        }
        proof {
            assert forall|q: Seq<u8>| is_solution(q, bytes) && extends(q, head) implies resume
                && !index_le(cursor, q) by {
                lemma_solution_step(q, bytes, head);
            }
        }
        false
    }

    /// Moves the cursor on to the sequence that follows it: from the deepest
    /// level up, a level at the last letter goes back to the first and the
    /// next level up is tried; the first level found below the last letter
    /// goes one letter on. Returns true when every level was at the last
    /// letter, so that nothing follows.
    fn advance_cursor(&mut self) -> (wrapped: bool)
        ensures
            final(self).input == old(self).input,
            final(self).alphabet == old(self).alphabet,
            final(self).done == old(self).done,
            !wrapped ==> forall|q: Seq<u8>|
                q.len() == 26 && all_letters(q) ==> (index_lt(old(self).prefix@, q) <==> index_le(
                    final(self).prefix@,
                    q,
                )),
            wrapped ==> forall|q: Seq<u8>|
                q.len() == 26 && all_letters(q) ==> !index_lt(old(self).prefix@, q),
    {
        let ghost before = self.prefix@;
        let mut idx: usize = 26;
        while idx > 0
            invariant
                idx <= 26,
                before == old(self).prefix@,
                self.input == old(self).input,
                self.alphabet == old(self).alphabet,
                self.done == old(self).done,
                self.prefix@.take(idx as int) == before.take(idx as int),
                forall|j: int| idx <= j < 26 ==> #[trigger] before[j] >= 25,
                forall|j: int| idx <= j < 26 ==> #[trigger] self.prefix@[j] == 0,
            decreases idx,
        {
            idx -= 1;
            let ghost entry = self.prefix@;
            proof {
                assert(entry.take(idx + 1)[idx as int] == before.take(idx + 1)[idx as int]);
                assert(entry.take(idx as int) =~= entry.take(idx + 1).take(idx as int));
                assert(before.take(idx as int) =~= before.take(idx + 1).take(idx as int));
            }
            if self.prefix[idx] >= 25 {
                self.prefix[idx] = 0;
                proof {
                    assert(self.prefix@.take(idx as int) =~= entry.take(idx as int));
                }
            } else {
                self.prefix[idx] += 1;
                proof {
                    let after = self.prefix@;
                    assert(after.take(idx as int) =~= entry.take(idx as int));
                    assert forall|q: Seq<u8>| q.len() == 26 && all_letters(q) implies (index_lt(
                        before,
                        q,
                    ) <==> index_le(after, q)) by {
                        lemma_successor(before, after, idx as int, q);
                    }
                }
                return false;
            }
        }
        proof {
            assert forall|q: Seq<u8>| q.len() == 26 && all_letters(q) implies !index_lt(
                before,
                q,
            ) by {
                lemma_nothing_follows(before, q);
            }
        }
        true
    }

    /// The next decoding in lexicographic order, or `None` when all have
    /// been returned.
    pub fn next(&mut self) -> (r: Option<String>)
        ensures
            final(self).code() == old(self).code(),
            match r {
                Some(s) => is_first(s@, old(self).pending()) && final(self).pending() == old(
                    self,
                ).pending().remove(s@),
                None => old(self).pending() == Set::<Seq<char>>::empty() && final(self).pending()
                    == Set::<Seq<char>>::empty(),
            },
    {
        if self.done {
            return None;
        }
        let ghost code = self.input@;
        let ghost bytes = self.input.spec_bytes();
        let ghost cursor = self.prefix@;
        self.alphabet = FULL_ALPHABET;
        proof {
            let none = cursor.take(0);
            assert(bytes.take(0) =~= encoding(none));
            assert forall|i: u8| i < 26 implies (#[trigger] is_on(FULL_ALPHABET, i)
                <==> !none.contains(i)) by {
                let sh = i as u32;
                assert(0x03ff_ffffu32 & (1u32 << sh) != 0) by (bit_vector)
                    requires
                        sh < 26,
                ;
            }
            assert forall|q: Seq<u8>| q.len() == 26 implies extends(q, none) by {
                assert(q.take(0) =~= none);
            }
        }
        if !self.next_inner(0, 0, true) {
            proof {
                lemma_no_solution(code, bytes, cursor);
            }
            self.done = true;
            return None;
        }
        let ghost found = self.prefix@;
        proof {
            lemma_first_solution(found, code, bytes, cursor);
        }
        let s = spell(self.prefix.as_slice());
        let wrapped = self.advance_cursor();
        if wrapped {
            self.done = true;
        }
        proof {
            lemma_pending_after(found, code, bytes, cursor, self.prefix@, wrapped);
        }
        Some(s)
    }

    /// The next decodings in lexicographic order, up to `limit` of them;
    /// fewer only when no more are pending.
    pub fn take(&mut self, limit: usize) -> (out: Vec<String>)
        ensures
            final(self).code() == old(self).code(),
            out@.len() <= limit,
            out@.len() < limit ==> final(self).pending() == Set::<Seq<char>>::empty(),
            forall|i: int| 0 <= i < out@.len() ==> old(self).pending().contains(#[trigger] out@[i]@),
            forall|i: int, j: int|
                0 <= i < j < out@.len() ==> lex_lt(#[trigger] out@[i]@, #[trigger] out@[j]@),
            forall|t: Seq<char>| #[trigger]
                final(self).pending().contains(t) <==> old(self).pending().contains(t) && forall|
                    i: int,
                |
                    0 <= i < out@.len() ==> lex_lt(#[trigger] out@[i]@, t),
            forall|t: Seq<char>|
                old(self).pending().contains(t) && !final(self).pending().contains(t)
                    ==> exists|i: int| 0 <= i < out@.len() && #[trigger] out@[i]@ == t,
    {
        let mut out: Vec<String> = Vec::new();
        let mut open = true;
        while open && out.len() < limit
            invariant
                self.code() == old(self).code(),
                out@.len() <= limit,
                !open ==> self.pending() == Set::<Seq<char>>::empty(),
                forall|i: int|
                    0 <= i < out@.len() ==> old(self).pending().contains(#[trigger] out@[i]@),
                forall|i: int, j: int|
                    0 <= i < j < out@.len() ==> lex_lt(#[trigger] out@[i]@, #[trigger] out@[j]@),
                forall|t: Seq<char>| #[trigger]
                    self.pending().contains(t) <==> old(self).pending().contains(t) && forall|
                        i: int,
                    |
                        0 <= i < out@.len() ==> lex_lt(#[trigger] out@[i]@, t),
                forall|t: Seq<char>|
                    old(self).pending().contains(t) && !self.pending().contains(t) ==> exists|
                        i: int,
                    |
                        0 <= i < out@.len() && #[trigger] out@[i]@ == t,
            decreases
                    (if open {
                        limit - out@.len() + 1
                    } else {
                        0
                    }),
        {
            let ghost before = self.pending();
            let ghost so_far = out@;
            match self.next() {
                None => {
                    open = false;
                },
                Some(s) => {
                    proof {
                        lemma_lex_lt_irreflexive(s@);
                        assert forall|t: Seq<char>|
                            before.contains(t) && !before.remove(s@).contains(t) implies t
                            == s@ by {}
                    }
                    out.push(s);
                    proof {
                        let last = so_far.len() as int;
                        assert(out@[last]@ == s@);
                        assert forall|i: int| 0 <= i < out@.len() implies old(
                            self,
                        ).pending().contains(#[trigger] out@[i]@) by {
                            if i < last {
                                assert(out@[i] == so_far[i]);
                            }
                        }
                        assert forall|i: int, j: int| 0 <= i < j < out@.len() implies lex_lt(
                            #[trigger] out@[i]@,
                            #[trigger] out@[j]@,
                        ) by {
                            assert(out@[i] == so_far[i]);
                            if j < last {
                                assert(out@[j] == so_far[j]);
                            }
                        }
                        assert forall|t: Seq<char>| #[trigger]
                            self.pending().contains(t) <==> old(self).pending().contains(t)
                                && forall|i: int|
                                0 <= i < out@.len() ==> lex_lt(#[trigger] out@[i]@, t) by {
                            if self.pending().contains(t) {
                                assert(before.contains(t));
                                assert forall|i: int| 0 <= i < out@.len() implies lex_lt(
                                    #[trigger] out@[i]@,
                                    t,
                                ) by {
                                    if i < last {
                                        assert(out@[i] == so_far[i]);
                                    }
                                }
                            }
                            if old(self).pending().contains(t) && forall|i: int|
                                0 <= i < out@.len() ==> lex_lt(#[trigger] out@[i]@, t) {
                                assert(lex_lt(out@[last]@, t));
                                assert forall|i: int| 0 <= i < so_far.len() implies lex_lt(
                                    #[trigger] so_far[i]@,
                                    t,
                                ) by {
                                    assert(out@[i] == so_far[i]);
                                }
                            }
                        }
                        assert forall|t: Seq<char>|
                            old(self).pending().contains(t) && !self.pending().contains(
                                t,
                            ) implies exists|i: int|
                            0 <= i < out@.len() && #[trigger] out@[i]@ == t by {
                            if before.contains(t) {
                                assert(t == s@);
                                assert(out@[last]@ == t);
                            } else {
                                let i = choose|i: int|
                                    0 <= i < so_far.len() && #[trigger] so_far[i]@ == t;
                                assert(out@[i] == so_far[i]);
                            }
                        }
                    }
                },
            }
        }
        out
    }
}

/// A search for all decodings of `code`, in lexicographic order.
pub fn smalpha_all(code: &str) -> (r: AlphaSearch<'_>)
    ensures
        r.code() == code@,
        r.pending() == decodings(code@),
{
    AlphaSearch::new(code)
}

/// `code` has exactly one decoding.
pub open spec fn has_unique_decoding(code: Seq<char>) -> bool {
    exists|s: Seq<char>| decodings(code) == Set::<Seq<char>>::empty().insert(s)
}

/// The decoding of `code` if it has exactly one, found by asking the search
/// for at most two.
pub fn unique_decoding(code: &str) -> (r: Option<String>)
    ensures
        r is Some <==> has_unique_decoding(code@),
        r matches Some(s) ==> decodings(code@) == Set::<Seq<char>>::empty().insert(s@),
{
    let mut search = smalpha_all(code);
    match search.next() {
        None => {
            proof {
                assert forall|s: Seq<char>|
                    decodings(code@) != Set::<Seq<char>>::empty().insert(s) by {
                    assert(Set::<Seq<char>>::empty().insert(s).contains(s));
                }
            }
            None
        },
        Some(first) => {
            let ghost rest = search.pending();
            match search.next() {
                None => {
                    proof {
                        assert(decodings(code@) =~= Set::<Seq<char>>::empty().insert(first@));
                    }
                    Some(first)
                },
                Some(second) => {
                    proof {
                        assert(rest.contains(second@));
                        assert forall|s: Seq<char>|
                            decodings(code@) != Set::<Seq<char>>::empty().insert(s) by {
                            let one = Set::<Seq<char>>::empty().insert(s);
                            if decodings(code@) == one {
                                assert(one.contains(first@));
                                assert(one.contains(second@));
                            }
                        }
                    }
                    None
                },
            }
        },
    }
}

} // verus!
