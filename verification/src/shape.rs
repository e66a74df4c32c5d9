//! The shape of the encodings of the alphabet: every permutation of the
//! alphabet encodes to 82 symbols, 44 of them dots.

use crate::arrangement::{lemma_arrangement_len, unused};
use crate::bits::{bit, has_shape, lemma_next_of_shape, popcount, spec_next_permutation};
use crate::code::{lemma_codeword_shape, spec_codeword, spec_letter, spec_morse, spec_smorse};
use crate::decoding::{
    decodes, indices, lemma_letters_of_indices, lemma_permutation_of_letters,
};
use crate::input_generator::{
    lemma_bounds_popcount, lemma_pow2_values, spec_render, HIGH_ALPHABET, LOW_ALPHABET,
};
use crate::search::{lemma_token_after_grows, lemma_token_after_popcount, token_after};
use vstd::arithmetic::div_mod::{lemma_div_denominator, lemma_mod_breakdown, lemma_small_mod};
use vstd::arithmetic::power2::{
    lemma2_to64, lemma2_to64_rest, lemma_pow2_adds, lemma_pow2_pos, lemma_pow2_strictly_increases,
    lemma_pow2_unfold, pow2,
};
use vstd::prelude::*;

verus! {

/// Number of dots among the symbols `cs`.
pub open spec fn dots(cs: Seq<char>) -> nat
    decreases cs.len(),
{
    if cs.len() == 0 {
        0
    } else {
        dots(cs.drop_last()) + if cs.last() == '.' {
            1nat
        } else {
            0nat
        }
    }
}

/// What a character adds to an encoding: the dots of its codeword where
/// `by_dots` is set, the symbols of its codeword otherwise.
pub open spec fn measure(c: char, by_dots: bool) -> nat {
    if by_dots {
        dots(spec_morse(c))
    } else {
        spec_morse(c).len()
    }
}

/// The measures of the characters of `s`, added up.
pub open spec fn weight(s: Seq<char>, by_dots: bool) -> nat
    decreases s.len(),
{
    if s.len() == 0 {
        0
    } else {
        weight(s.drop_last(), by_dots) + measure(s.last(), by_dots)
    }
}

/// The measures of those of the first `n` letters that occur in `s`, added
/// up.
pub open spec fn weight_of_letters(s: Seq<char>, by_dots: bool, n: nat) -> nat
    decreases n,
{
    if n == 0 {
        0
    } else {
        weight_of_letters(s, by_dots, (n - 1) as nat) + if s.contains(spec_letter((n - 1) as u8)) {
            measure(spec_letter((n - 1) as u8), by_dots)
        } else {
            0
        }
    }
}

/// The dots of two sequences, one after the other, are those of both.
pub proof fn lemma_dots_add(a: Seq<char>, b: Seq<char>)
    ensures
        dots(a + b) == dots(a) + dots(b),
    decreases b.len(),
{
    if b.len() == 0 {
        assert(a + b =~= a);
    } else {
        lemma_dots_add(a, b.drop_last());
        assert((a + b).drop_last() =~= a + b.drop_last());
    }
}

/// The symbols and the dots of an encoding are the measures of its
/// characters, added up.
pub proof fn lemma_smorse_weight(s: Seq<char>)
    ensures
        spec_smorse(s).len() == weight(s, false),
        dots(spec_smorse(s)) == weight(s, true),
    decreases s.len(),
{
    if s.len() > 0 {
        lemma_smorse_weight(s.drop_last());
        lemma_dots_add(spec_smorse(s.drop_last()), spec_morse(s.last()));
    }
}

/// One more letter that `s` does not hold adds its measure, where it is
/// among the first `n` letters.
proof fn lemma_weight_of_letters_push(s: Seq<char>, c: char, by_dots: bool, n: nat)
    requires
        'a' <= c <= 'z',
        !s.contains(c),
        n <= 26,
    ensures
        weight_of_letters(s.push(c), by_dots, n) == weight_of_letters(s, by_dots, n) + if (c as int)
            - ('a' as int) < (n as int) {
            measure(c, by_dots)
        } else {
            0
        },
    decreases n,
{
    if n > 0 {
        lemma_weight_of_letters_push(s, c, by_dots, (n - 1) as nat);
        let letter = spec_letter((n - 1) as u8);
        assert(s.push(c).contains(letter) <==> s.contains(letter) || letter == c) by {
            if s.contains(letter) {
                let i = choose|i: int| 0 <= i < s.len() && s[i] == letter;
                assert(s.push(c)[i] == letter);
            }
            if letter == c {
                assert(s.push(c)[s.len() as int] == c);
            }
            if s.push(c).contains(letter) && letter != c {
                let i = choose|i: int| 0 <= i < s.push(c).len() && s.push(c)[i] == letter;
                assert(s[i] == letter);
            }
        }
    }
}

/// The measures of the characters of distinct lowercase letters add up to
/// the measures of the letters that occur among them.
proof fn lemma_weight_by_letters(s: Seq<char>, by_dots: bool)
    requires
        s.no_duplicates(),
        forall|i: int| 0 <= i < s.len() ==> 'a' <= #[trigger] s[i] <= 'z',
    ensures
        weight(s, by_dots) == weight_of_letters(s, by_dots, 26),
    decreases s.len(),
{
    if s.len() == 0 {
        lemma_weight_of_nothing(s, by_dots, 26);
    } else {
        let rest = s.drop_last();
        let c = s.last();
        lemma_weight_by_letters(rest, by_dots);
        assert(!rest.contains(c)) by {
            if rest.contains(c) {
                let i = choose|i: int| 0 <= i < rest.len() && rest[i] == c;
                assert(s[i] == s[s.len() - 1]);
            }
        }
        lemma_weight_of_letters_push(rest, c, by_dots, 26);
        assert(rest.push(c) =~= s);
    }
}

/// No letter occurs in the empty sequence.
proof fn lemma_weight_of_nothing(s: Seq<char>, by_dots: bool, n: nat)
    requires
        s.len() == 0,
    ensures
        weight_of_letters(s, by_dots, n) == 0,
    decreases n,
{
    if n > 0 {
        lemma_weight_of_nothing(s, by_dots, (n - 1) as nat);
    }
}

/// The symbols of the codewords of all letters together, or their dots.
pub open spec fn weight_of_alphabet(by_dots: bool, n: nat) -> nat
    decreases n,
{
    if n == 0 {
        0
    } else {
        weight_of_alphabet(by_dots, (n - 1) as nat) + measure(spec_letter((n - 1) as u8), by_dots)
    }
}

/// Where `s` holds each of the first `n` letters, the measures of those
/// that occur are those of all of them.
proof fn lemma_weight_of_all_letters(s: Seq<char>, by_dots: bool, n: nat)
    requires
        n <= 26,
        forall|x: u8| x < n ==> s.contains(#[trigger] spec_letter(x)),
    ensures
        weight_of_letters(s, by_dots, n) == weight_of_alphabet(by_dots, n),
    decreases n,
{
    if n > 0 {
        lemma_weight_of_all_letters(s, by_dots, (n - 1) as nat);
        assert(s.contains(spec_letter((n - 1) as u8)));
    }
}

/// The dots of the codeword of each letter.
proof fn lemma_codeword_dots(i: int)
    requires
        0 <= i < 26,
    ensures
        measure(spec_letter(i as u8), false) == spec_codeword(i).len(),
        measure(spec_letter(i as u8), true) == dots(spec_codeword(i)),
        dots(spec_codeword(i)) == dots_of_letter(i),
{
    reveal_with_fuel(dots, 5);
    let word = spec_codeword(i);
    lemma_codeword_shape(i);
    assert(spec_morse(spec_letter(i as u8)) == word);
    if word.len() >= 1 {
        let w1 = word.drop_last();
        if word.len() >= 2 {
            let w2 = w1.drop_last();
            if word.len() >= 3 {
                let w3 = w2.drop_last();
                if word.len() >= 4 {
                    let w4 = w3.drop_last();
                    assert(w4.len() == 0);
                }
            }
        }
    }
}

/// The number of dots of the codeword of letter `i`.
pub open spec fn dots_of_letter(i: int) -> nat {
    if i == 0 || i == 6 || i == 9 || i == 10 || i == 13 || i == 16 || i == 22 || i == 24 {
        1
    } else if i == 2 || i == 3 || i == 8 || i == 15 || i == 17 || i == 20 || i == 23 || i == 25 {
        2
    } else if i == 1 || i == 5 || i == 11 || i == 18 || i == 21 {
        3
    } else if i == 7 {
        4
    } else if i == 4 {
        1
    } else {
        0
    }
}

/// The codewords of all 26 letters have 82 symbols together, 44 of them
/// dots.
pub proof fn lemma_alphabet_totals()
    ensures
        weight_of_alphabet(false, 26) == 82,
        weight_of_alphabet(true, 26) == 44,
{
    reveal_with_fuel(weight_of_alphabet, 27);
    assert forall|i: int| 0 <= i < 26 implies measure(spec_letter(i as u8), false)
        == #[trigger] spec_codeword(i).len() && measure(spec_letter(i as u8), true)
        == dots_of_letter(i) by {
        lemma_codeword_dots(i);
    }
    assert(spec_codeword(0).len() == 2);
    assert(spec_codeword(1).len() == 4);
    assert(spec_codeword(2).len() == 4);
    assert(spec_codeword(3).len() == 3);
    assert(spec_codeword(4).len() == 1);
    assert(spec_codeword(5).len() == 4);
    assert(spec_codeword(6).len() == 3);
    assert(spec_codeword(7).len() == 4);
    assert(spec_codeword(8).len() == 2);
    assert(spec_codeword(9).len() == 4);
    assert(spec_codeword(10).len() == 3);
    assert(spec_codeword(11).len() == 4);
    assert(spec_codeword(12).len() == 2);
    assert(spec_codeword(13).len() == 2);
    assert(spec_codeword(14).len() == 3);
    assert(spec_codeword(15).len() == 4);
    assert(spec_codeword(16).len() == 4);
    assert(spec_codeword(17).len() == 3);
    assert(spec_codeword(18).len() == 3);
    assert(spec_codeword(19).len() == 1);
    assert(spec_codeword(20).len() == 3);
    assert(spec_codeword(21).len() == 4);
    assert(spec_codeword(22).len() == 3);
    assert(spec_codeword(23).len() == 4);
    assert(spec_codeword(24).len() == 4);
    assert(spec_codeword(25).len() == 4);
}

/// What has a decoding has 82 symbols, 44 of them dots.
pub proof fn lemma_decoding_shape(s: Seq<char>, code: Seq<char>)
    requires
        decodes(s, code),
    ensures
        code.len() == 82,
        dots(code) == 44,
{
    lemma_smorse_weight(s);
    lemma_weight_by_letters(s, false);
    lemma_weight_by_letters(s, true);
    let p = indices(s);
    lemma_letters_of_indices(s);
    lemma_permutation_of_letters(p);
    lemma_arrangement_len(p);
    assert forall|x: u8| x < 26 implies s.contains(#[trigger] spec_letter(x)) by {
        assert(!unused(p).contains(x));
        let i = choose|i: int| 0 <= i < p.len() && p[i] == x;
        assert(s[i] == spec_letter(x));
    }
    lemma_weight_of_all_letters(s, false, 26);
    lemma_weight_of_all_letters(s, true, 26);
    lemma_alphabet_totals();
}

/// The first `k` symbols from the end of the candidate of token `n`.
pub open spec fn render_tail(n: int, k: nat) -> Seq<char> {
    Seq::new(
        k,
        |j: int|
            if bit(n, (k - 1 - j) as nat) {
                '.'
            } else {
                '-'
            },
    )
}

/// The dots among the last `k` symbols of a candidate are the set bits
/// among the lowest `k` bits of its token.
proof fn lemma_render_tail_dots(n: int, k: nat)
    requires
        0 <= n,
    ensures
        dots(render_tail(n, k)) == popcount(n % (pow2(k) as int)),
    decreases k,
{
    lemma2_to64();
    if k > 0 {
        let j = (k - 1) as nat;
        lemma_render_tail_dots(n / 2, j);
        lemma_pow2_unfold(k);
        lemma_pow2_pos(j);
        assert(render_tail(n, k).drop_last() =~= render_tail(n / 2, j)) by {
            assert forall|x: int| 0 <= x < j implies render_tail(n, k).drop_last()[x]
                == render_tail(n / 2, j)[x] by {
                let i = (j - 1 - x) as nat;
                lemma_pow2_unfold(i + 1);
                lemma_pow2_pos(i);
                lemma_div_denominator(n, 2, pow2(i) as int);
                assert(bit(n, i + 1) == bit(n / 2, i));
            }
        }
        assert(render_tail(n, k).last() == '.' <==> n % 2 == 1);
        // the lowest `k` bits of `n` are its lowest bit and the lowest `k - 1` bits of its half
        let low = n % (pow2(k) as int);
        lemma_mod_breakdown(n, 2, pow2(j) as int);
        assert(low == 2 * ((n / 2) % (pow2(j) as int)) + n % 2);
        assert(low / 2 == (n / 2) % (pow2(j) as int));
        assert(low % 2 == n % 2);
    }
}

/// The candidate of a token has as many dots as the token has set bits.
pub proof fn lemma_candidate_dots(n: int)
    requires
        0 <= n < pow2(82),
    ensures
        spec_render(n).len() == 82,
        dots(spec_render(n)) == popcount(n),
{
    lemma_render_tail_dots(n, 82);
    assert(render_tail(n, 82) =~= spec_render(n));
    lemma_small_mod(n as nat, pow2(82));
}

/// Only the candidate of a token with 44 set bits has a decoding.
pub proof fn lemma_decodable_token(n: int, s: Seq<char>)
    requires
        0 <= n < pow2(82),
        decodes(s, spec_render(n)),
    ensures
        popcount(n) == 44,
{
    lemma_candidate_dots(n);
    lemma_decoding_shape(s, spec_render(n));
}

/// The number whose lowest 46 bits are set but for bits `a` and `b`.
pub open spec fn two_gaps(a: nat, b: nat) -> int {
    pow2(46) - 1 - pow2(a) - pow2(b)
}

/// The next number after one with two gaps among its lowest 46 bits: the
/// lower gap moves down by one place, or from the bottom both gaps move to
/// just below where the upper one was.
proof fn lemma_two_gaps_next(a: nat, b: nat)
    requires
        a < b <= 45,
        !(a == 0 && b == 1),
    ensures
        spec_next_permutation(two_gaps(a, b)) == if a > 0 {
            two_gaps((a - 1) as nat, b)
        } else {
            two_gaps((b - 2) as nat, (b - 1) as nat)
        },
{
    lemma2_to64();
    let all = pow2(46) as int;
    let v = two_gaps(a, b);
    let pb = pow2(b) as int;
    if a > 0 {
        let below = pow2((a - 1) as nat) as int;
        let pa = pow2(a) as int;
        let above = pow2(a + 1) as int;
        let rest = pow2((45 - a) as nat) as int;
        let between = pow2((b - a - 1) as nat) as int;
        lemma_pow2_unfold(a);
        lemma_pow2_unfold(a + 1);
        lemma_pow2_pos((a - 1) as nat);
        lemma_pow2_adds((45 - a) as nat, a + 1);
        lemma_pow2_adds((b - a - 1) as nat, a + 1);
        lemma_pow2_strictly_increases((b - a - 1) as nat, (45 - a) as nat);
        let high = (rest - 1 - between) as nat;
        assert(v == high * above + (pa - 1) * 1) by (nonlinear_arith)
            requires
                v == all - 1 - pa - pb,
                rest * above == all,
                between * above == pb,
                above == 2 * pa,
                high == rest - 1 - between,
        ;
        assert(has_shape(v, high, a, 0));
        lemma_next_of_shape(v, high, a, 0);
        assert(high * above + pa + below - 1 == all - 1 - below - pb) by (nonlinear_arith)
            requires
                rest * above == all,
                between * above == pb,
                above == 2 * pa,
                pa == 2 * below,
                high == rest - 1 - between,
        ;
    } else {
        let low = pow2((b - 2) as nat) as int;
        let mid = pow2((b - 1) as nat) as int;
        let above = pow2(b + 1) as int;
        let rest = pow2((45 - b) as nat) as int;
        lemma_pow2_unfold((b - 1) as nat);
        lemma_pow2_unfold(b);
        lemma_pow2_unfold(b + 1);
        lemma_pow2_pos((b - 2) as nat);
        lemma_pow2_pos((45 - b) as nat);
        lemma_pow2_adds((45 - b) as nat, b + 1);
        let high = (rest - 1) as nat;
        assert(v == high * above + (mid - 1) * 2) by (nonlinear_arith)
            requires
                v == all - 1 - 1 - pb,
                rest * above == all,
                above == 2 * pb,
                pb == 2 * mid,
                high == rest - 1,
        ;
        assert(1 + (b - 1) as nat + 1 == b + 1);
        assert(has_shape(v, high, (b - 1) as nat, 1));
        lemma_next_of_shape(v, high, (b - 1) as nat, 1);
        assert(pow2(1 + (b - 1) as nat) == pb);
        assert(pow2((((b - 1) as nat) - 1) as nat) == low);
        assert(high * above + pb + low - 1 == all - 1 - low - mid) by (nonlinear_arith)
            requires
                rest * above == all,
                above == 2 * pb,
                pb == 2 * mid,
                mid == 2 * low,
                high == rest - 1,
        ;
    }
}

/// The gaps of the token that a search from the lowest token comes to after
/// `k` candidates, of which `1034 - k` numbers with two gaps lie above.
proof fn lemma_first_gaps(k: nat) -> (gaps: (nat, nat))
    requires
        k <= 1034,
    ensures
        gaps.0 < gaps.1 <= 45,
        token_after(LOW_ALPHABET as int, k) == two_gaps(gaps.0, gaps.1),
        gaps.1 * (gaps.1 - 1) + 2 * gaps.0 == 2 * (1034 - k),
    decreases k,
{
    lemma2_to64();
    lemma2_to64_rest();
    if k == 0 {
        (44, 45)
    } else {
        let (a, b) = lemma_first_gaps((k - 1) as nat);
        lemma_two_gaps_next(a, b);
        if a > 0 {
            ((a - 1) as nat, b)
        } else {
            assert((b - 1) * (b - 2) + 2 * (b - 2) == b * (b - 1) - 2) by (nonlinear_arith);
            ((b - 2) as nat, (b - 1) as nat)
        }
    }
}

/// The first 1035 tokens from the lowest are within the range of tokens,
/// each with 44 set bits, so that a generator that begins at the lowest
/// token returns a candidate that many times.
pub proof fn lemma_first_tokens_in_range(k: nat)
    requires
        k <= 1034,
    ensures
        LOW_ALPHABET <= token_after(LOW_ALPHABET as int, k) <= HIGH_ALPHABET,
        k > 0 ==> token_after(LOW_ALPHABET as int, (k - 1) as nat) < token_after(
            LOW_ALPHABET as int,
            k,
        ),
        popcount(token_after(LOW_ALPHABET as int, k)) == 44,
{
    lemma_pow2_values();
    lemma2_to64_rest();
    let (a, b) = lemma_first_gaps(k);
    lemma_pow2_pos(a);
    lemma_pow2_pos(b);
    lemma_token_after_grows(LOW_ALPHABET as int, k);
    lemma_token_after_popcount(LOW_ALPHABET as int, k);
    lemma_bounds_popcount();
    if k > 0 {
        lemma_token_after_grows(LOW_ALPHABET as int, (k - 1) as nat);
        crate::bits::lemma_next_is_successor(token_after(LOW_ALPHABET as int, (k - 1) as nat));
    }
}

} // verus!
