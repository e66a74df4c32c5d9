//! Questions about the squashed encodings of a list of words.

use crate::arrangement::as_bytes;
use crate::bits::bit;
use crate::code::{lemma_smorse_symbols, smorse, spec_letter, spec_smorse, text_views};
use crate::decoder::starts_with;
use crate::input_generator::{DASH, DOT};
use crate::tally::{
    byte_tally, tally_add, tally_bytes, tally_count, tally_entries, tally_eq, tally_get, tally_of,
    tally_texts, text_entries, text_tally, trim, trimmed,
};
use vstd::seq_lib::lemma_multiset_commutative;
use vstd::slice::slice_subrange;
use vstd::arithmetic::power2::lemma_pow2_pos;
use vstd::bits::lemma_u16_shr_is_div;
use vstd::prelude::*;
use vstd::string::{StringExecFns, StringSliceAdditionalSpecFns};
use vstd::utf8::{encode_utf8, is_ascii_chars_encode_utf8};

verus! {

/// The symbols of the squashed encoding of `word`, as bytes.
pub open spec fn symbols(word: Seq<char>) -> Seq<u8> {
    as_bytes(spec_smorse(word))
}

/// The bytes of the text of an encoding are its symbols.
pub proof fn lemma_encoded_bytes(word: Seq<char>, text: &str)
    requires
        text@ == spec_smorse(word),
    ensures
        text.spec_bytes() == symbols(word),
{
    lemma_smorse_symbols(word);
    is_ascii_chars_encode_utf8(text@);
    assert(text.spec_bytes() =~= symbols(word));
}

/// `needle` stands somewhere in `hay`.
pub open spec fn has_window(hay: Seq<u8>, needle: Seq<u8>) -> bool {
    exists|i: int|
        0 <= i && i + needle.len() <= hay.len() && #[trigger] hay.subrange(
            i,
            i + needle.len(),
        ) == needle
}

/// Whether `needle` stands somewhere in `hay`.
pub fn contains_window(hay: &[u8], needle: &[u8]) -> (r: bool)
    ensures
        r == has_window(hay@, needle@),
{
    if needle.len() > hay.len() {
        return false;
    }
    let last = hay.len() - needle.len();
    let mut i: usize = 0;
    while i < last
        invariant
            i <= last,
            last == hay@.len() - needle@.len(),
            forall|j: int|
                0 <= j < i ==> #[trigger] hay@.subrange(j, j + needle@.len()) != needle@,
        decreases last - i,
    {
        if starts_with(hay, i, needle) {
            return true;
        }
        i += 1;
    }
    starts_with(hay, last, needle)
}

/// A run of `n` dashes.
pub open spec fn dash_run(n: nat) -> Seq<u8> {
    Seq::new(n, |i: int| DASH)
}

/// Whether the encoding of `word` has 15 dashes in a row.
pub fn has_dash_run(word: &str) -> (r: bool)
    ensures
        r == has_window(symbols(word@), dash_run(15)),
{
    let seq = smorse(word);
    let text = seq.as_str();
    let needle: [u8; 15] = [DASH;15];
    proof {
        lemma_encoded_bytes(word@, text);
        assert(needle@ =~= dash_run(15));
    }
    contains_window(text.as_bytes(), needle.as_slice())
}

/// `s` reads the same from both ends.
pub open spec fn reads_both_ways(s: Seq<u8>) -> bool {
    forall|i: int| 0 <= i < s.len() ==> #[trigger] s[i] == s[s.len() - 1 - i]
}

/// Whether the encoding of `word` is a palindrome.
pub fn is_palindrome(word: &str) -> (r: bool)
    ensures
        r == reads_both_ways(symbols(word@)),
{
    let seq = smorse(word);
    let text = seq.as_str();
    proof {
        lemma_encoded_bytes(word@, text);
    }
    let bytes = text.as_bytes();
    let n = bytes.len();
    let mut i: usize = 0;
    while i < n
        invariant
            i <= n,
            n == bytes@.len(),
            bytes@ == symbols(word@),
            forall|j: int| 0 <= j < i ==> #[trigger] bytes@[j] == bytes@[n - 1 - j],
        decreases n - i,
    {
        if bytes[i] != bytes[n - 1 - i] {
            assert(bytes@[i as int] != bytes@[bytes@.len() - 1 - i]);
            return false;
        }
        i += 1;
    }
    true
}

/// The numbers below `n` for which `wanted` holds, in ascending order.
pub open spec fn selected(n: nat, wanted: spec_fn(int) -> bool) -> Seq<int>
    decreases n,
{
    if n == 0 {
        Seq::empty()
    } else if wanted(n - 1) {
        selected((n - 1) as nat, wanted).push(n - 1)
    } else {
        selected((n - 1) as nat, wanted)
    }
}

/// The places of a sequence of indices, as numbers.
pub open spec fn as_ints(indices: Seq<usize>) -> Seq<int> {
    Seq::new(indices.len(), |i: int| indices[i] as int)
}

/// The first word whose encoding has 15 dashes in a row, by its place in
/// the list.
pub fn first_dash_run(words: &Vec<String>) -> (r: Option<usize>)
    ensures
        match r {
            Some(at) => at < words@.len() && has_window(symbols(words@[at as int]@), dash_run(15))
                && forall|i: int|
                0 <= i < at ==> !has_window(symbols(#[trigger] words@[i]@), dash_run(15)),
            None => forall|i: int|
                0 <= i < words@.len() ==> !has_window(symbols(#[trigger] words@[i]@), dash_run(15)),
        },
{
    let mut at: usize = 0;
    while at < words.len()
        invariant
            at <= words@.len(),
            forall|i: int|
                0 <= i < at ==> !has_window(symbols(#[trigger] words@[i]@), dash_run(15)),
        decreases words@.len() - at,
    {
        if has_dash_run(words[at].as_str()) {
            return Some(at);
        }
        at += 1;
    }
    None
}

/// The number of bytes of a text.
pub open spec fn byte_len(text: Seq<char>) -> nat {
    encode_utf8(text).len()
}

/// The words of 13 bytes whose encodings are palindromes, by their places
/// in the list.
pub fn palindrome_words(words: &Vec<String>) -> (r: Vec<usize>)
    ensures
        as_ints(r@) == selected(
            words@.len(),
            |i: int| byte_len(words@[i]@) == 13 && reads_both_ways(symbols(words@[i]@)),
        ),
{
    let ghost wanted = |i: int|
        byte_len(words@[i]@) == 13 && reads_both_ways(symbols(words@[i]@));
    let mut out: Vec<usize> = Vec::new();
    let mut at: usize = 0;
    while at < words.len()
        invariant
            at <= words@.len(),
            wanted == |i: int|
                byte_len(words@[i]@) == 13 && reads_both_ways(symbols(words@[i]@)),
            as_ints(out@) == selected(at as nat, wanted),
        decreases words@.len() - at,
    {
        let word = words[at].as_str();
        let ghost before = out@;
        assert(wanted(at as int) == (byte_len(word@) == 13 && reads_both_ways(symbols(word@))));
        assert(selected((at + 1) as nat, wanted) == if wanted(at as int) {
            selected(at as nat, wanted).push(at as int)
        } else {
            selected(at as nat, wanted)
        });
        if word.as_bytes().len() == 13 && is_palindrome(word) {
            out.push(at);
            proof {
                assert(as_ints(out@) =~= as_ints(before).push(at as int));
            }
        }
        at += 1;
    }
    out
}

/// The text of a number of 16 bits: a dash for each set bit and a dot for
/// each clear one, the highest bit first.
pub open spec fn spec_n2s(n: u16) -> Seq<char> {
    Seq::new(
        16,
        |k: int|
            if bit(n as int, (15 - k) as nat) {
                '-'
            } else {
                '.'
            },
    )
}

/// The text of `n`: a dash for each set bit and a dot for each clear one,
/// the highest bit first.
pub fn n2s(n: u16) -> (s: String)
    ensures
        s@ == spec_n2s(n),
{
    let mut out = String::new();
    let mut k: u16 = 0;
    while k < 16
        invariant
            k <= 16,
            out@ == spec_n2s(n).take(k as int),
        decreases 16 - k,
    {
        let i: u16 = 15 - k;
        proof {
            reveal_strlit(".");
            reveal_strlit("-");
            let shifted = n >> i;
            lemma_u16_shr_is_div(n, i);
            lemma_pow2_pos(i as nat);
            assert((n & (1u16 << i) > 0) == (shifted & 1 == 1)) by (bit_vector)
                requires
                    i < 16,
                    shifted == n >> i,
            ;
            assert((shifted & 1 == 1) == (shifted % 2 == 1)) by (bit_vector);
            assert(spec_n2s(n).take(k + 1) =~= spec_n2s(n).take(k as int) + seq![
                spec_n2s(n)[k as int],
            ]);
            assert("."@ =~= seq!['.']);
            assert("-"@ =~= seq!['-']);
        }
        if n & (1 << i) > 0 {
            out.append("-");
        } else {
            out.append(".");
        }
        k += 1;
    }
    assert(spec_n2s(n).take(16) =~= spec_n2s(n));
    out
}

/// How often `b` occurs in `s`.
pub open spec fn occurrences(s: Seq<u8>, b: u8) -> nat {
    s.to_multiset().count(b)
}

/// No byte occurs more often in a sequence than the sequence is long.
proof fn lemma_occurrences_fit(s: Seq<u8>, b: u8)
    requires
        s.len() <= usize::MAX,
    ensures
        occurrences(s, b) <= s.len(),
        tally_count(tally_of(s.to_multiset()), b) == occurrences(s, b),
{
    broadcast use vstd::multiset::group_multiset_axioms;

    s.to_multiset_ensures();
}

/// The number of dashes of the encoding of `word`, where it is above zero
/// and the encoding has as many dots.
pub fn balanced_count(word: &str) -> (r: Option<usize>)
    ensures
        match r {
            Some(n) => n > 0 && occurrences(symbols(word@), DASH) == n && occurrences(
                symbols(word@),
                DOT,
            ) == n,
            None => occurrences(symbols(word@), DASH) == 0 || occurrences(symbols(word@), DASH)
                != occurrences(symbols(word@), DOT),
        },
{
    let seq = smorse(word);
    let text = seq.as_str();
    let bytes = text.as_bytes();
    let len = bytes.len();
    proof {
        lemma_encoded_bytes(word@, text);
        assert(bytes@.len() == len);
        lemma_occurrences_fit(bytes@, DASH);
        lemma_occurrences_fit(bytes@, DOT);
    }
    let counts = tally_bytes(bytes);
    match (tally_get(&counts, DASH), tally_get(&counts, DOT)) {
        (Some(dashes), Some(dots)) => if dashes == dots {
            Some(dashes)
        } else {
            None
        },
        _ => None,
    }
}

/// The words of 21 bytes whose encodings have as many dots as dashes, by
/// their places in the list.
pub fn balanced_words(words: &Vec<String>) -> (r: Vec<usize>)
    ensures
        as_ints(r@) == selected(
            words@.len(),
            |i: int|
                byte_len(words@[i]@) == 21 && occurrences(symbols(words@[i]@), DASH) > 0
                    && occurrences(symbols(words@[i]@), DASH) == occurrences(
                    symbols(words@[i]@),
                    DOT,
                ),
        ),
{
    let ghost wanted = |i: int|
        byte_len(words@[i]@) == 21 && occurrences(symbols(words@[i]@), DASH) > 0 && occurrences(
            symbols(words@[i]@),
            DASH,
        ) == occurrences(symbols(words@[i]@), DOT);
    let mut out: Vec<usize> = Vec::new();
    let mut at: usize = 0;
    while at < words.len()
        invariant
            at <= words@.len(),
            wanted == |i: int|
                byte_len(words@[i]@) == 21 && occurrences(symbols(words@[i]@), DASH) > 0
                    && occurrences(symbols(words@[i]@), DASH) == occurrences(
                    symbols(words@[i]@),
                    DOT,
                ),
            as_ints(out@) == selected(at as nat, wanted),
        decreases words@.len() - at,
    {
        let word = words[at].as_str();
        let ghost before = out@;
        assert(wanted(at as int) == (byte_len(word@) == 21 && occurrences(symbols(word@), DASH) > 0
            && occurrences(symbols(word@), DASH) == occurrences(symbols(word@), DOT)));
        assert(selected((at + 1) as nat, wanted) == if wanted(at as int) {
            selected(at as nat, wanted).push(at as int)
        } else {
            selected(at as nat, wanted)
        });
        if word.as_bytes().len() == 21 && balanced_count(word).is_some() {
            out.push(at);
            proof {
                assert(as_ints(out@) =~= as_ints(before).push(at as int));
            }
        }
        at += 1;
    }
    out
}

/// The symbols of the encodings of the first `n` words, one encoding after
/// the other.
pub open spec fn all_symbols(words: Seq<String>, n: nat) -> Seq<u8>
    decreases n,
{
    if n == 0 {
        Seq::empty()
    } else {
        all_symbols(words, (n - 1) as nat) + symbols(words[n - 1]@)
    }
}

/// `entries` holds each byte that occurs in `s` once, with the number of
/// times it occurs.
pub open spec fn counts_bytes(entries: Seq<(u8, usize)>, s: Seq<u8>) -> bool {
    &&& forall|i: int|
        0 <= i < entries.len() ==> (#[trigger] entries[i]).1 > 0 && entries[i].1 == occurrences(
            s,
            entries[i].0,
        )
    &&& forall|i: int, j: int|
        0 <= i < j < entries.len() ==> (#[trigger] entries[i]).0 != (#[trigger] entries[j]).0
    &&& forall|b: u8|
        occurrences(s, b) > 0 ==> exists|i: int|
            0 <= i < entries.len() && (#[trigger] entries[i]).0 == b
}

/// How often each symbol occurs in the encodings of all the words, in no
/// fixed order; `None` where the encodings together have more bytes than a
/// count can hold.
pub fn symbol_totals(words: &Vec<String>) -> (r: Option<Vec<(u8, usize)>>)
    ensures
        match r {
            Some(entries) => all_symbols(words@, words@.len()).len() <= usize::MAX
                && counts_bytes(entries@, all_symbols(words@, words@.len())),
            None => all_symbols(words@, words@.len()).len() > usize::MAX,
        },
{
    let nothing: [u8; 0] = [];
    let mut counts = tally_bytes(nothing.as_slice());
    let mut total: usize = 0;
    let mut at: usize = 0;
    proof {
        assert(nothing@ =~= all_symbols(words@, 0));
    }
    while at < words.len()
        invariant
            at <= words@.len(),
            total == all_symbols(words@, at as nat).len(),
            byte_tally(counts) == tally_of(all_symbols(words@, at as nat).to_multiset()),
        decreases words@.len() - at,
    {
        let seq = smorse(words[at].as_str());
        let text = seq.as_str();
        let bytes = text.as_bytes();
        let ghost so_far = all_symbols(words@, at as nat);
        proof {
            lemma_encoded_bytes(words@[at as int]@, text);
            lemma_multiset_commutative(so_far, bytes@);
        }
        match total.checked_add(bytes.len()) {
            None => {
                proof {
                    lemma_symbols_grow(words@, (at + 1) as nat, words@.len());
                }
                return None;
            },
            Some(sum) => {
                proof {
                    assert forall|b: u8|
                        tally_count(byte_tally(counts), b) + #[trigger] bytes@.to_multiset().count(
                            b,
                        ) == occurrences(so_far + bytes@, b) && occurrences(so_far + bytes@, b)
                            <= sum by {
                        lemma_occurrences_fit(so_far, b);
                        lemma_occurrences_fit(bytes@, b);
                        lemma_occurrences_fit(so_far + bytes@, b);
                    }
                }
                tally_add(&mut counts, bytes);
                total = sum;
                proof {
                    assert(byte_tally(counts) =~= tally_of((so_far + bytes@).to_multiset()));
                }
            },
        }
        at += 1;
    }
    let entries = tally_entries(&counts);
    proof {
        let all = all_symbols(words@, words@.len());
        assert forall|b: u8| tally_count(byte_tally(counts), b) == occurrences(all, b) by {
            lemma_occurrences_fit(all, b);
        }
        assert forall|i: int| 0 <= i < entries@.len() implies (#[trigger] entries@[i]).1 > 0
            && entries@[i].1 == occurrences(all, entries@[i].0) by {
            lemma_occurrences_fit(all, entries@[i].0);
        }
    }
    Some(entries)
}

/// The encodings of more words have no fewer symbols.
proof fn lemma_symbols_grow(words: Seq<String>, n: nat, m: nat)
    requires
        n <= m,
    ensures
        all_symbols(words, n).len() <= all_symbols(words, m).len(),
    decreases m,
{
    if n < m {
        lemma_symbols_grow(words, n, (m - 1) as nat);
    }
}

/// The letters `a` to `z` in their order.
pub open spec fn alphabet() -> Seq<char> {
    Seq::new(26, |i: int| spec_letter(i as u8))
}

/// `bytes` has each byte as often as the encoding of the alphabet has it.
pub open spec fn alphabet_counts(bytes: Seq<u8>) -> bool {
    tally_of(bytes.to_multiset()) == tally_of(symbols(alphabet()).to_multiset())
}

/// Whether `text` has each byte as often as the encoding of the alphabet
/// has it.
pub fn same_counts_as_alphabet(text: &str) -> (r: bool)
    ensures
        r == alphabet_counts(text.spec_bytes()),
{
    let letters = "abcdefghijklmnopqrstuvwxyz";
    proof {
        reveal_strlit("abcdefghijklmnopqrstuvwxyz");
        assert(letters@ =~= alphabet());
    }
    let encoded = smorse(letters);
    let expected_text = encoded.as_str();
    proof {
        lemma_encoded_bytes(alphabet(), expected_text);
    }
    let expect = tally_bytes(expected_text.as_bytes());
    let got = tally_bytes(text.as_bytes());
    tally_eq(&expect, &got)
}

/// Whether `text`, without the white space at its ends, has each byte as
/// often as the encoding of the alphabet has it.
pub fn has_alphabet_counts(text: &str) -> (r: bool)
    ensures
        r == alphabet_counts(encode_utf8(trimmed(text@))),
{
    same_counts_as_alphabet(trim(text))
}

/// The encodings of a list of words.
pub open spec fn encodings(words: Seq<String>) -> Seq<Seq<char>> {
    Seq::new(words.len(), |i: int| spec_smorse(words[i]@))
}

/// The encodings of the words, in their order.
fn encode_all(words: &Vec<String>) -> (out: Vec<String>)
    ensures
        text_views(out@) == encodings(words@),
{
    let mut out: Vec<String> = Vec::new();
    let mut at: usize = 0;
    while at < words.len()
        invariant
            at <= words@.len(),
            text_views(out@) == encodings(words@).take(at as int),
        decreases words@.len() - at,
    {
        let ghost before = out@;
        out.push(smorse(words[at].as_str()));
        proof {
            assert(text_views(out@) =~= text_views(before).push(spec_smorse(words@[at as int]@)));
            assert(encodings(words@).take(at + 1) =~= encodings(words@).take(at as int).push(
                spec_smorse(words@[at as int]@),
            ));
        }
        at += 1;
    }
    proof {
        assert(encodings(words@).take(at as int) =~= encodings(words@));
    }
    out
}

/// A sequence that is the encoding of exactly `count` of the words, if
/// there is one.
pub fn sequence_with_count(words: &Vec<String>, count: usize) -> (r: Option<String>)
    ensures
        match r {
            Some(seq) => count > 0 && encodings(words@).to_multiset().count(seq@) == count,
            None => forall|s: Seq<char>|
                encodings(words@).to_multiset().count(s) > 0 ==> #[trigger] encodings(
                    words@,
                ).to_multiset().count(s) != count,
        },
{
    let encoded = encode_all(words);
    let total = words.len();
    let ghost all = encodings(words@).to_multiset();
    proof {
        broadcast use vstd::multiset::group_multiset_axioms;

        encodings(words@).to_multiset_ensures();
        assert(all.len() == total);
        assert forall|s: Seq<char>| #[trigger] all.count(s) <= usize::MAX by {
            assert(all.count(s) <= all.len());
        }
    }
    let counts = tally_texts(encoded);
    let entries = text_entries(&counts);
    proof {
        assert forall|s: Seq<char>| all.count(s) > 0 implies exists|i: int|
            0 <= i < entries@.len() && (#[trigger] entries@[i]).0@ == s by {
            assert(text_tally(counts).dom().contains(s));
        }
    }
    let mut at: usize = 0;
    while at < entries.len()
        invariant
            at <= entries@.len(),
            all == encodings(words@).to_multiset(),
            forall|i: int|
                0 <= i < entries@.len() ==> (#[trigger] entries@[i]).1 > 0 && all.count(
                    entries@[i].0@,
                ) == entries@[i].1,
            forall|i: int| 0 <= i < at ==> (#[trigger] entries@[i]).1 != count,
        decreases entries@.len() - at,
    {
        if entries[at].1 == count {
            return Some(entries[at].0.clone());
        }
        at += 1;
    }
    proof {
        assert forall|s: Seq<char>| all.count(s) > 0 implies #[trigger] all.count(s) != count by {
            let i = choose|i: int| 0 <= i < entries@.len() && (#[trigger] entries@[i]).0@ == s;
            assert(entries@[i].1 != count);
        }
    }
    None
}

/// The sequence of 13 symbols of number `n`: the last 13 characters of its
/// text.
pub open spec fn thirteen(n: int) -> Seq<char> {
    spec_n2s(n as u16).skip(3)
}

/// No encoding of the words holds `needle`.
pub open spec fn is_absent(words: Seq<String>, needle: Seq<u8>) -> bool {
    forall|i: int| 0 <= i < words.len() ==> !has_window(symbols(#[trigger] words[i]@), needle)
}

/// The sequences of 13 symbols of the numbers below `n` that no encoding of
/// the words holds, in the order of their numbers.
pub open spec fn absent_below(words: Seq<String>, n: nat) -> Seq<Seq<char>>
    decreases n,
{
    if n == 0 {
        Seq::empty()
    } else if is_absent(words, as_bytes(thirteen(n - 1))) {
        absent_below(words, (n - 1) as nat).push(thirteen(n - 1))
    } else {
        absent_below(words, (n - 1) as nat)
    }
}

/// Whether one of the encodings holds `needle`.
fn some_contains(words: &Vec<String>, encoded: &Vec<String>, needle: &[u8]) -> (r: bool)
    requires
        text_views(encoded@) == encodings(words@),
    ensures
        r == !is_absent(words@, needle@),
{
    let mut at: usize = 0;
    assert(text_views(encoded@).len() == encoded@.len());
    assert(encodings(words@).len() == words@.len());
    while at < encoded.len()
        invariant
            at <= encoded@.len(),
            encoded@.len() == words@.len(),
            text_views(encoded@) == encodings(words@),
            forall|i: int| 0 <= i < at ==> !has_window(symbols(#[trigger] words@[i]@), needle@),
        decreases encoded@.len() - at,
    {
        let text = encoded[at].as_str();
        proof {
            assert(text@ == text_views(encoded@)[at as int]);
            assert(encodings(words@)[at as int] == spec_smorse(words@[at as int]@));
            lemma_encoded_bytes(words@[at as int]@, text);
        }
        if contains_window(text.as_bytes(), needle) {
            return true;
        }
        at += 1;
    }
    false
}

/// All sequences of 13 symbols that stand in the encoding of none of the
/// words, in the order of the numbers whose bits they show.
pub fn absent_sequences(words: &Vec<String>) -> (out: Vec<String>)
    ensures
        text_views(out@) == absent_below(words@, 8192),
{
    let encoded = encode_all(words);
    let mut out: Vec<String> = Vec::new();
    let mut n: u16 = 0;
    while n < 8192
        invariant
            n <= 8192,
            text_views(encoded@) == encodings(words@),
            text_views(out@) == absent_below(words@, n as nat),
        decreases 8192 - n,
    {
        let seq = n2s(n);
        let text = seq.as_str();
        let ghost before = out@;
        proof {
            assert forall|k: int| 0 <= k < text@.len() implies '\0' <= #[trigger] text@[k]
                <= '\u{7f}' by {}
            is_ascii_chars_encode_utf8(text@);
            assert(text.spec_bytes().subrange(3, 16) =~= as_bytes(thirteen(n as int)));
            assert(text@.subrange(3, 16) =~= thirteen(n as int));
        }
        let needle = slice_subrange(text.as_bytes(), 3, 16);
        if !some_contains(words, &encoded, needle) {
            out.push(String::from_str(text.substring_ascii(3, 16)));
            proof {
                assert(text_views(out@) =~= text_views(before).push(thirteen(n as int)));
            }
        }
        n += 1;
    }
    out
}

} // verus!
