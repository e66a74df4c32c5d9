//! Candidate inputs for the search: every string of 82 symbols with 44 dots
//! and 38 dashes, in ascending order of the number whose bits it shows.

use crate::arrangement::as_bytes;
use crate::bits::{
    bit, is_successor, lemma_low_zeros, lemma_next_is_successor, lemma_popcount_ones,
    lemma_popcount_split, low_zeros, popcount, spec_next_permutation,
};
use vstd::arithmetic::div_mod::{lemma_div_denominator, lemma_mod_breakdown};
use vstd::arithmetic::power2::{
    lemma2_to64, lemma2_to64_rest, lemma_pow2_adds, lemma_pow2_pos, lemma_pow2_strictly_increases, lemma_pow2_unfold,
    pow2,
};
use vstd::prelude::*;
use vstd::string::{StringExecFns, StringSliceAdditionalSpecFns};
use vstd::utf8::is_ascii_chars_encode_utf8;

verus! {

/// Number of symbols of a candidate.
pub const INPUT_SIZE: u32 = 82;

/// Number of dots of a candidate: the set bits of its token.
pub const ON_BITS: u32 = 44;

/// The lowest token: 44 set bits at the bottom.
pub const LOW_ALPHABET: i128 = 0x0fff_ffff_ffff;

/// The highest token: 44 set bits at the top of the 82.
pub const HIGH_ALPHABET: i128 = 0x3_ffff_ffff_ffc0_0000_0000;

/// Tokens below this limit have a successor that fits the token type.
pub const TOKEN_LIMIT: i128 = 0x4000_0000_0000_0000_0000_0000_0000_0000;

/// The byte of a dot.
pub const DOT: u8 = 46;

/// The byte of a dash.
pub const DASH: u8 = 45;

/// The candidate of token `n`: symbol `k` is a dot where bit `81 - k` of `n`
/// is set, and a dash where it is clear.
pub open spec fn spec_render(n: int) -> Seq<char> {
    Seq::new(
        82,
        |k: int|
            if bit(n, (81 - k) as nat) {
                '.'
            } else {
                '-'
            },
    )
}

/// The number whose bits below `k` are set where the symbol of that bit,
/// counted from the end of the first 82 bytes, is a dot.
pub open spec fn token_below(bytes: Seq<u8>, k: nat) -> int
    decreases k,
{
    if k == 0 {
        0
    } else {
        token_below(bytes, (k - 1) as nat) + if bytes[82 - k] == DOT {
            pow2((k - 1) as nat) as int
        } else {
            0
        }
    }
}

/// The token of the first 82 bytes of a candidate: bit `i` is set where byte
/// `81 - i` is a dot.
pub open spec fn spec_i2n(bytes: Seq<u8>) -> int {
    token_below(bytes, 82)
}

/// The start of a search that is asked to begin at `n`: `n` itself within the
/// range of tokens, the lowest token otherwise.
pub open spec fn spec_start(n: int) -> int {
    if LOW_ALPHABET <= n <= HIGH_ALPHABET {
        n
    } else {
        LOW_ALPHABET as int
    }
}

/// The values of the powers of two that bound the tokens.
pub proof fn lemma_pow2_values()
    ensures
        pow2(38) == 0x40_0000_0000,
        pow2(44) == 0x1000_0000_0000,
        pow2(82) == 0x4_0000_0000_0000_0000_0000,
        pow2(126) == 0x4000_0000_0000_0000_0000_0000_0000_0000,
        pow2(127) == 0x8000_0000_0000_0000_0000_0000_0000_0000,
{
    lemma2_to64();
    lemma2_to64_rest();
    lemma_pow2_adds(41, 41);
    lemma_pow2_adds(63, 63);
    lemma_pow2_unfold(127);
}

/// The lowest and the highest token have 44 set bits each.
pub proof fn lemma_bounds_popcount()
    ensures
        popcount(LOW_ALPHABET as int) == 44,
        popcount(HIGH_ALPHABET as int) == 44,
{
    lemma_pow2_values();
    lemma_popcount_ones(44);
    lemma_popcount_split(pow2(44) - 1, 38, 0);
}

/// `std`'s `i128::trailing_zeros`: the number of trailing zeros in the binary
/// form of the argument, which is 128 for zero and otherwise the number of
/// times that two divides the argument.
pub assume_specification[ i128::trailing_zeros ](v: i128) -> (r: u32)
    ensures
        r == low_zeros(v as int),
;

/// Shifting one to the left by `k` gives `2^k`.
proof fn lemma_shl_one(k: u32)
    requires
        k < 127,
    ensures
        1i128 << k == pow2(k as nat),
    decreases k,
{
    lemma2_to64();
    let wide = k as u128;
    if k == 0 {
        assert(1i128 << 0u128 == 1) by (bit_vector);
    } else {
        let j = (k - 1) as u32;
        let below = j as u128;
        lemma_shl_one(j);
        lemma_pow2_unfold(k as nat);
        assert(1i128 << wide == 2 * (1i128 << below)) by (bit_vector)
            requires
                wide == below + 1,
                below < 126,
        ;
    }
}

/// Shifting a number that is not negative to the right by `k` divides it by
/// `2^k`.
proof fn lemma_shr(x: i128, k: u32)
    requires
        0 <= x,
        k < 127,
    ensures
        x >> k == (x as int) / (pow2(k as nat) as int),
    decreases k,
{
    lemma2_to64();
    let wide = k as u128;
    if k == 0 {
        assert(x >> 0u128 == x) by (bit_vector);
    } else {
        let j = (k - 1) as u32;
        let below = j as u128;
        lemma_shr(x, j);
        lemma_pow2_unfold(k as nat);
        lemma_pow2_pos(j as nat);
        assert(x >> wide == (x >> below) / 2) by (bit_vector)
            requires
                wide == below + 1,
                below < 126,
                0 <= x,
        ;
        lemma_div_denominator(x as int, pow2(j as nat) as int, 2);
        assert(pow2(j as nat) * 2 == pow2(k as nat));
    }
}

/// The lowest set bit of a number above zero is two to the number of its
/// trailing zeros.
proof fn lemma_lowest_bit(v: i128)
    requires
        0 < v,
    ensures
        v & ((-v) as i128) == pow2(low_zeros(v as int)),
    decreases v,
{
    lemma2_to64();
    let neg = (-v) as i128;
    let lowest = v & neg;
    if v % 2 == 0 {
        let half = (v / 2) as i128;
        let neg_half = (-half) as i128;
        let lowest_half = half & neg_half;
        lemma_lowest_bit(half);
        lemma_pow2_unfold(low_zeros(v as int));
        assert(lowest == 2 * lowest_half) by (bit_vector)
            requires
                0 < half,
                v == 2 * half,
                neg == -v,
                neg_half == -half,
                lowest == v & neg,
                lowest_half == half & neg_half,
        ;
    } else {
        assert(lowest == 1) by (bit_vector)
            requires
                0 < v,
                v % 2 != 0,
                neg == -v,
                lowest == v & neg,
        ;
    }
}

/// The next token after `v`: the next number with as many set bits.
pub fn next_permutation(v: i128) -> (w: i128)
    requires
        0 < v < TOKEN_LIMIT,
    ensures
        w == spec_next_permutation(v as int),
        is_successor(v as int, w as int),
{
    let t = v | (v - 1);
    let c = v.trailing_zeros();
    proof {
        lemma_pow2_values();
        lemma_low_zeros(v as int);
        lemma_next_is_successor(v as int);
        let low = v & ((-v) as i128);
        lemma_lowest_bit(v);
        if c >= 126 {
            if c > 126 {
                lemma_pow2_strictly_increases(126, c as nat);
            }
        }
        assert(t == v + low - 1) by (bit_vector)
            requires
                0 < v,
                t == v | ((v - 1) as i128),
                low == v & ((-v) as i128),
        ;
        let carried = (t + 1) as i128;
        let nt = !t;
        assert(nt == -carried) by (bit_vector)
            requires
                0 <= t < 0x7fff_ffff_ffff_ffff_ffff_ffff_ffff_ffffi128,
                carried == t + 1,
                nt == !t,
        ;
        let s = nt & ((-nt) as i128);
        assert(s == carried & ((-carried) as i128)) by (bit_vector)
            requires
                nt == -carried,
                0 < carried,
                s == nt & ((-nt) as i128),
        ;
        lemma_lowest_bit(carried);
        lemma_pow2_pos(low_zeros(carried as int));
        lemma_shr((s - 1) as i128, (c + 1) as u32);
        lemma_pow2_unfold((c + 1) as nat);
        lemma_pow2_pos(c as nat);
        let ones = ((s - 1) as i128) >> ((c + 1) as u32);
        assert(0 <= ones <= s - 1) by {
            vstd::arithmetic::div_mod::lemma_div_nonincreasing(s - 1, pow2((c + 1) as nat) as int);
            vstd::arithmetic::div_mod::lemma_div_pos_is_pos(s - 1, pow2((c + 1) as nat) as int);
        }
        assert(carried | ones == carried + ones) by (bit_vector)
            requires
                0 < carried,
                s == carried & ((-carried) as i128),
                0 <= ones <= s - 1,
        ;
    }
    (t + 1) | (((!t & -!t) - 1) >> (c + 1))
}

/// Testing bit `idx` of a number by masking tells whether the bit is set.
proof fn lemma_bit_test(n: i128, idx: u32)
    requires
        0 <= n,
        idx < 127,
    ensures
        (n & (1i128 << idx) > 0) == bit(n as int, idx as nat),
{
    let sh = idx as u128;
    let shifted = n >> idx;
    lemma_shr(n, idx);
    lemma_pow2_pos(idx as nat);
    assert((n & (1i128 << sh) > 0) == (shifted & 1 == 1)) by (bit_vector)
        requires
            0 <= n,
            sh < 127,
            shifted == n >> sh,
    ;
    assert(0 <= shifted) by (bit_vector)
        requires
            0 <= n,
            sh < 127,
            shifted == n >> sh,
    ;
    assert((shifted & 1 == 1) == (shifted % 2 == 1)) by (bit_vector)
        requires
            0 <= shifted,
    ;
}

/// The token of the first `k` symbols from the end of a candidate is the
/// candidate's token modulo `2^k`.
proof fn lemma_token_below_render(n: int, k: nat)
    requires
        0 <= n,
        k <= 82,
    ensures
        token_below(as_bytes(spec_render(n)), k) == n % (pow2(k) as int),
    decreases k,
{
    lemma2_to64();
    if k > 0 {
        let j = (k - 1) as nat;
        lemma_token_below_render(n, j);
        lemma_pow2_unfold(k);
        lemma_pow2_pos(j);
        lemma_mod_breakdown(n, pow2(j) as int, 2);
        let bytes = as_bytes(spec_render(n));
        assert(bytes[82 - k] == DOT <==> bit(n, j));
        assert((pow2(j) as int) * 2 == pow2(k));
    }
}

/// Reading the token back from the candidate of a token gives the token.
pub proof fn lemma_i2n_of_render(n: int)
    requires
        0 <= n < pow2(82),
    ensures
        spec_i2n(as_bytes(spec_render(n))) == n,
{
    lemma_token_below_render(n, 82);
    vstd::arithmetic::div_mod::lemma_small_mod(n as nat, pow2(82));
}

/// Reading the token back from the text of a candidate gives the token.
pub proof fn lemma_round_trip(n: int, text: &str)
    requires
        0 <= n < pow2(82),
        text@ == spec_render(n),
    ensures
        text.spec_bytes().len() == 82,
        spec_i2n(text.spec_bytes()) == n,
{
    is_ascii_chars_encode_utf8(text@);
    assert(text.spec_bytes() =~= as_bytes(spec_render(n)));
    lemma_i2n_of_render(n);
}

/// Walks through the candidates in ascending order of their tokens.
pub struct InputGenerator {
    n: i128,
    buffer: [u8; 82],
}

impl InputGenerator {
    /// The token never falls below the lowest.
    #[verifier::type_invariant]
    spec fn at_least_low(&self) -> bool {
        LOW_ALPHABET <= self.n
    }

    /// The token of the candidate that comes next.
    pub closed spec fn token(&self) -> i128 {
        self.n
    }

    /// A generator that begins at the lowest token.
    pub fn new() -> (r: InputGenerator)
        ensures
            r.token() == LOW_ALPHABET,
    {
        InputGenerator { n: LOW_ALPHABET, buffer: [0;82] }
    }

    /// A generator that begins at `n`, or at the lowest token where `n` is
    /// outside the range of tokens.
    pub fn start_at(n: i128) -> (r: InputGenerator)
        ensures
            r.token() == spec_start(n as int),
    {
        let mut n = n;
        if n < LOW_ALPHABET || n > HIGH_ALPHABET {
            n = LOW_ALPHABET;
        }
        InputGenerator { n, buffer: [0;82] }
    }

    /// A generator that begins at the given token if there is one, and at
    /// the lowest token otherwise.
    pub fn maybe_start_at(n: Option<i128>) -> (r: InputGenerator)
        ensures
            r.token() == match n {
                Some(n) => spec_start(n as int),
                None => LOW_ALPHABET as int,
            },
    {
        match n {
            None => InputGenerator::new(),
            Some(n) => InputGenerator::start_at(n),
        }
    }

    /// The token of the candidate that comes next.
    pub fn get_n(&mut self) -> (n: i128)
        ensures
            n == old(self).token(),
            final(self).token() == old(self).token(),
            LOW_ALPHABET <= n,
    {
        proof {
            use_type_invariant(&*self);
        }
        self.n
    }

    /// The token of a candidate, for a restart: the number whose bit `i` is
    /// set exactly where byte `81 - i` of the input is a dot.
    pub fn i2n(input: &str) -> (n: i128)
        requires
            input.spec_bytes().len() >= 82,
        ensures
            n == spec_i2n(input.spec_bytes()),
            0 <= n < pow2(82),
    {
        let input = input.as_bytes();
        let mut n: i128 = 0;
        proof {
            lemma2_to64();
        }
        for idx in 0..INPUT_SIZE
            invariant
                input@.len() >= 82,
                n == token_below(input@, idx as nat),
                0 <= n < pow2(idx as nat),
        {
            proof {
                lemma_pow2_values();
                lemma_pow2_unfold((idx + 1) as nat);
                lemma_shl_one(idx);
                lemma_pow2_strictly_increases((idx + 1) as nat, 83);
                lemma_pow2_strictly_increases(83, 126);
                let sh = idx as u128;
                let p = 1i128 << idx;
                assert(n | p == n + p) by (bit_vector)
                    requires
                        0 <= n < p,
                        p == 1i128 << sh,
                        sh < 126,
                ;
            }
            if input[(INPUT_SIZE - 1 - idx) as usize] == DOT {
                n |= 1 << idx;
            }
        }
        n
    }

    /// The candidate of token `n`: a dot for each set bit and a dash for
    /// each clear one of its lowest 82 bits, the highest of them first.
    pub fn n2i(n: i128) -> (s: String)
        requires
            0 <= n,
        ensures
            s@ == spec_render(n as int),
    {
        let ghost shown = spec_render(n as int);
        let mut out = String::new();
        for idx in 0..INPUT_SIZE
            invariant
                0 <= n,
                shown == spec_render(n as int),
                out@ == shown.take(idx as int),
        {
            let at = INPUT_SIZE - 1 - idx;
            proof {
                reveal_strlit(".");
                reveal_strlit("-");
                lemma_bit_test(n, at);
                assert(shown.take(idx + 1) =~= shown.take(idx as int) + seq![shown[idx as int]]);
                assert("."@ =~= seq!['.']);
                assert("-"@ =~= seq!['-']);
            }
            if n & (1 << at) > 0 {
                out.append(".");
            } else {
                out.append("-");
            }
        }
        assert(shown.take(82) =~= shown);
        out
    }

    /// Writes the symbols of the token into the buffer.
    fn update_buffer(&mut self)
        ensures
            final(self).n == old(self).n,
            final(self).buffer@ == as_bytes(spec_render(old(self).n as int)),
    {
        proof {
            use_type_invariant(&*self);
        }
        for idx in 0..INPUT_SIZE
            invariant
                self.n == old(self).n,
                LOW_ALPHABET <= self.n,
                forall|j: int|
                    82 - idx <= j < 82 ==> #[trigger] self.buffer@[j] == as_bytes(
                        spec_render(self.n as int),
                    )[j],
        {
            proof {
                lemma_bit_test(self.n, idx);
            }
            self.buffer[(INPUT_SIZE - 1 - idx) as usize] = if self.n & (1 << idx) > 0 {
                DOT
            } else {
                DASH
            };
        }
        assert(self.buffer@ =~= as_bytes(spec_render(self.n as int)));
    }

    /// The candidate that comes next, without moving on.
    pub fn current_input(&mut self) -> (s: String)
        ensures
            s@ == spec_render(old(self).token() as int),
            final(self).token() == old(self).token(),
    {
        self.update_buffer();
        let ghost shown = spec_render(self.n as int);
        let mut out = String::new();
        let mut k: usize = 0;
        while k < 82
            invariant
                k <= 82,
                shown == spec_render(self.n as int),
                self.buffer@ == as_bytes(shown),
                out@ == shown.take(k as int),
            decreases 82 - k,
        {
            proof {
                reveal_strlit(".");
                reveal_strlit("-");
                assert(shown.take(k + 1) =~= shown.take(k as int) + seq![shown[k as int]]);
                assert(as_bytes(shown)[k as int] == shown[k as int] as u8);
                assert(shown[k as int] == '.' || shown[k as int] == '-');
                assert("."@ =~= seq!['.']);
                assert("-"@ =~= seq!['-']);
            }
            if self.buffer[k] == DOT {
                out.append(".");
            } else {
                out.append("-");
            }
            k += 1;
        }
        assert(shown.take(82) =~= shown);
        out
    }

    /// The candidate that comes next, after which the generator has moved
    /// on to the token that follows; `None` once the token is above the
    /// highest.
    pub fn next(&mut self) -> (r: Option<String>)
        ensures
            match r {
                Some(s) => {
                    &&& old(self).token() <= HIGH_ALPHABET
                    &&& s@ == spec_render(old(self).token() as int)
                    &&& final(self).token() == spec_next_permutation(old(self).token() as int)
                    &&& is_successor(old(self).token() as int, final(self).token() as int)
                },
                None => old(self).token() > HIGH_ALPHABET && final(self).token() == old(
                    self,
                ).token(),
            },
    {
        proof {
            use_type_invariant(&*self);
        }
        if self.n > HIGH_ALPHABET {
            return None;
        }
        let out = self.current_input();
        self.n = next_permutation(self.n);
        Some(out)
    }
}

} // verus!
