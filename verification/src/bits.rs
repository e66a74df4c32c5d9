//! Counting the set bits of a number, and the next number with as many.

use vstd::arithmetic::div_mod::{lemma_div_denominator, lemma_fundamental_div_mod_converse};
use vstd::arithmetic::power2::{
    lemma2_to64, lemma_pow2_adds, lemma_pow2_pos, lemma_pow2_unfold, pow2,
};
use vstd::prelude::*;

verus! {

/// Number of set bits of `n`.
pub open spec fn popcount(n: int) -> nat
    decreases n,
{
    if n <= 0 {
        0
    } else {
        (n % 2) as nat + popcount(n / 2)
    }
}

/// Whether bit `i` of `n` is set, bit 0 being the least significant.
pub open spec fn bit(n: int, i: nat) -> bool {
    (n / (pow2(i) as int)) % 2 == 1
}

/// Number of zero bits below the lowest set bit of `v`; 128 for zero.
pub open spec fn low_zeros(v: int) -> nat
    decreases
            (if v < 0 {
                -v
            } else {
                v
            }),
{
    if v == 0 {
        128
    } else if v % 2 != 0 {
        0
    } else {
        1 + low_zeros(v / 2)
    }
}

/// Number of set bits below the lowest zero bit of `v`.
pub open spec fn low_ones(v: nat) -> nat
    decreases v,
{
    if v % 2 == 0 {
        0
    } else {
        1 + low_ones(v / 2)
    }
}

/// `w` is the next number after `v` with as many set bits as `v`.
pub open spec fn is_successor(v: int, w: int) -> bool {
    &&& 0 <= v < w
    &&& popcount(w) == popcount(v)
    &&& forall|x: int| v < x < w ==> #[trigger] popcount(x) != popcount(v)
}

/// The next number with as many set bits as `v`, for `v` above zero: the
/// lowest set bit of `v` is added, which carries through the lowest run of
/// set bits, and the bits of that run but one go to the bottom.
pub open spec fn spec_next_permutation(v: int) -> int {
    let low = pow2(low_zeros(v)) as int;
    let carried = v + low;
    carried + (pow2(low_zeros(carried)) - 1) / (2 * low)
}

/// Doubling a number keeps its set bits, and adding one to the double adds
/// one bit.
pub proof fn lemma_popcount_double(n: int)
    requires
        0 <= n,
    ensures
        popcount(2 * n) == popcount(n),
        popcount(2 * n + 1) == popcount(n) + 1,
{
    assert((2 * n) / 2 == n);
    assert((2 * n + 1) / 2 == n);
}

/// The bits of `a * 2^k + b`, with `b` below `2^k`, are those of `a` and
/// those of `b`.
pub proof fn lemma_popcount_split(a: int, k: nat, b: int)
    requires
        0 <= a,
        0 <= b < pow2(k),
    ensures
        popcount(a * pow2(k) + b) == popcount(a) + popcount(b),
    decreases k,
{
    if k == 0 {
        lemma2_to0();
        assert(a * pow2(0) + b == a) by (nonlinear_arith)
            requires
                pow2(0) == 1,
                b == 0,
        ;
    } else {
        lemma_pow2_unfold(k);
        let half = pow2((k - 1) as nat);
        let b2 = b / 2;
        let lowest = b % 2;
        let n = a * pow2(k) + b;
        assert(n == 2 * (a * half + b2) + lowest) by (nonlinear_arith)
            requires
                n == a * pow2(k) + b,
                pow2(k) == 2 * half,
                b == 2 * b2 + lowest,
        ;
        lemma_popcount_split(a, (k - 1) as nat, b2);
        lemma_popcount_double(a * half + b2);
        lemma_popcount_double(b2);
    }
}

/// The first two powers of two.
proof fn lemma2_to0()
    ensures
        pow2(0) == 1,
        pow2(1) == 2,
{
    lemma2_to64();
}

/// All `k` bits of `2^k - 1` are set.
pub proof fn lemma_popcount_ones(k: nat)
    ensures
        popcount(pow2(k) - 1) == k,
    decreases k,
{
    lemma2_to0();
    if k > 0 {
        lemma_pow2_unfold(k);
        lemma_pow2_pos((k - 1) as nat);
        lemma_popcount_ones((k - 1) as nat);
        lemma_popcount_double(pow2((k - 1) as nat) - 1);
    }
}

/// A number with `k` set bits is at least `2^k - 1`.
pub proof fn lemma_popcount_least(n: int, k: nat)
    requires
        0 <= n,
        popcount(n) == k,
    ensures
        n >= pow2(k) - 1,
    decreases n,
{
    lemma2_to0();
    if n > 0 {
        let lowest = n % 2;
        lemma_popcount_least(n / 2, (k - lowest) as nat);
        if lowest == 1 {
            lemma_pow2_unfold(k);
        } else {
            lemma_pow2_pos(k);
        }
    }
}

/// A number below `2^n` has at most `n` set bits, and with `k` set bits it
/// is at most `2^n - 2^(n - k)`.
pub proof fn lemma_popcount_most(x: int, n: nat, k: nat)
    requires
        0 <= x < pow2(n),
        popcount(x) == k,
    ensures
        k <= n,
        x <= pow2(n) - pow2((n - k) as nat),
    decreases n,
{
    lemma2_to0();
    if n == 0 {
    } else {
        lemma_pow2_unfold(n);
        let lowest = x % 2;
        lemma_popcount_most(x / 2, (n - 1) as nat, (k - lowest) as nat);
        if lowest == 1 {
            lemma_pow2_unfold((n - k + 1) as nat);
            lemma_pow2_pos((n - k) as nat);
        } else if x > 0 {
            lemma_pow2_unfold((n - k) as nat);
        } else {
            lemma_pow2_pos(n);
        }
    }
}

/// A number above zero is an odd number times two to the number of its
/// trailing zeros.
pub proof fn lemma_low_zeros(v: int)
    requires
        0 < v,
    ensures
        v == (v / (pow2(low_zeros(v)) as int)) * pow2(low_zeros(v)),
        (v / (pow2(low_zeros(v)) as int)) % 2 == 1,
        pow2(low_zeros(v)) <= v,
    decreases v,
{
    lemma2_to0();
    let p = pow2(low_zeros(v)) as int;
    if v % 2 == 0 {
        let c = low_zeros(v / 2);
        lemma_low_zeros(v / 2);
        assert(low_zeros(v) == c + 1);
        lemma_pow2_unfold(c + 1);
        lemma_pow2_pos(c);
        let half = pow2(c) as int;
        assert(p == 2 * half);
        lemma_div_denominator(v, 2, half);
        let odd = (v / 2) / half;
        assert(v / p == odd);
        assert(v == odd * p) by (nonlinear_arith)
            requires
                v == 2 * (v / 2),
                v / 2 == odd * half,
                p == 2 * half,
        ;
    } else {
        assert(low_zeros(v) == 0);
        assert(p == 1);
        assert(v / p == v);
        assert(v == (v / p) * p);
    }
}

/// A number is an even number times two to the number of its trailing ones,
/// and those ones.
pub proof fn lemma_low_ones(v: nat)
    ensures
        v == (v / pow2(low_ones(v))) * pow2(low_ones(v)) + pow2(low_ones(v)) - 1,
        (v / pow2(low_ones(v))) % 2 == 0,
    decreases v,
{
    lemma2_to0();
    let p = pow2(low_ones(v)) as int;
    if v % 2 == 1 {
        let r = low_ones(v / 2);
        lemma_low_ones(v / 2);
        assert(low_ones(v) == r + 1);
        lemma_pow2_unfold(r + 1);
        lemma_pow2_pos(r);
        let half = pow2(r) as int;
        assert(p == 2 * half);
        lemma_div_denominator(v as int, 2, half);
        let even = ((v / 2) as int) / half;
        assert((v as int) / p == even);
        assert(v == even * p + p - 1) by (nonlinear_arith)
            requires
                v == 2 * (v / 2) + 1,
                (v / 2) as int == even * half + half - 1,
                p == 2 * half,
        ;
    } else {
        assert(low_ones(v) == 0);
        assert(p == 1);
        assert((v as int) / p == v);
        assert(v == ((v as int) / p) * p + p - 1);
    }
}

/// An odd number times `2^k` has `k` trailing zeros.
pub proof fn lemma_low_zeros_of_multiple(odd: nat, k: nat)
    requires
        odd % 2 == 1,
    ensures
        low_zeros((odd * pow2(k)) as int) == k,
    decreases k,
{
    lemma2_to0();
    if k == 0 {
        assert(odd * pow2(0) == odd) by (nonlinear_arith)
            requires
                pow2(0) == 1,
        ;
    } else {
        lemma_pow2_unfold(k);
        lemma_pow2_pos((k - 1) as nat);
        let half = pow2((k - 1) as nat);
        let v = odd * pow2(k);
        assert(v == 2 * (odd * half) && v > 0) by (nonlinear_arith)
            requires
                v == odd * pow2(k),
                pow2(k) == 2 * half,
                odd >= 1,
                half >= 1,
        ;
        lemma_low_zeros_of_multiple(odd, (k - 1) as nat);
    }
}

/// The parts of a number above zero: `high` above the lowest run of set
/// bits, the `ones` bits of that run, and `zeros` zero bits below it.
pub open spec fn has_shape(v: int, high: nat, ones: nat, zeros: nat) -> bool {
    &&& ones >= 1
    &&& v == high * pow2(zeros + ones + 1) + (pow2(ones) - 1) * pow2(zeros)
}

/// The parts of a number above zero, and those of the next number with as
/// many set bits: the run's top bit moves up by one place, and the rest of
/// the run goes to the bottom.
pub proof fn lemma_next_shape(v: int) -> (parts: (nat, nat, nat))
    requires
        0 < v,
    ensures
        has_shape(v, parts.0, parts.1, parts.2),
        spec_next_permutation(v) == parts.0 * pow2(parts.2 + parts.1 + 1) + pow2(parts.2 + parts.1)
            + pow2((parts.1 - 1) as nat) - 1,
{
    lemma2_to0();
    let c = low_zeros(v);
    let a = pow2(c);
    lemma_low_zeros(v);
    lemma_pow2_pos(c);
    let o = (v / (a as int)) as nat;
    let r = low_ones(o);
    let b = pow2(r);
    lemma_low_ones(o);
    lemma_pow2_pos(r);
    let g = o / b;
    let h = g / 2;
    assert(r >= 1);
    let b2 = pow2((r - 1) as nat);
    lemma_pow2_unfold(r);
    lemma_pow2_pos((r - 1) as nat);
    lemma_pow2_adds(c, r);
    lemma_pow2_unfold(c + r + 1);
    lemma_pow2_unfold(c + 1);
    let ab = pow2(c + r);
    assert(v == h * (2 * ab) + (b - 1) * a) by (nonlinear_arith)
        requires
            v == o * a,
            o == g * b + b - 1,
            g == 2 * h,
            ab == a * b,
    ;
    let carried = v + a;
    assert(carried == (g + 1) * ab) by (nonlinear_arith)
        requires
            carried == v + a,
            v == o * a,
            o == g * b + b - 1,
            ab == a * b,
    ;
    lemma_low_zeros_of_multiple(g + 1, c + r);
    assert(ab - 1 == (b2 - 1) * (2 * a) + (2 * a - 1)) by (nonlinear_arith)
        requires
            ab == a * b,
            b == 2 * b2,
    ;
    lemma_fundamental_div_mod_converse(ab - 1, (2 * a) as int, b2 - 1, 2 * a - 1);
    assert((g + 1) * ab == h * (2 * ab) + ab) by (nonlinear_arith)
        requires
            g == 2 * h,
    ;
    (h, r, c)
}

/// The next number of one whose parts are known: the top bit of the run of
/// ones moves up by one place, and the rest of the run goes to the bottom.
pub proof fn lemma_next_of_shape(v: int, high: nat, ones: nat, zeros: nat)
    requires
        has_shape(v, high, ones, zeros),
    ensures
        spec_next_permutation(v) == high * pow2(zeros + ones + 1) + pow2(zeros + ones) + pow2(
            (ones - 1) as nat,
        ) - 1,
{
    lemma2_to0();
    let a = pow2(zeros);
    let b = pow2(ones);
    let b2 = pow2((ones - 1) as nat);
    let ab = pow2(zeros + ones);
    lemma_pow2_pos(zeros);
    lemma_pow2_pos((ones - 1) as nat);
    lemma_pow2_unfold(ones);
    lemma_pow2_adds(zeros, ones);
    lemma_pow2_unfold(zeros + ones + 1);
    lemma_pow2_unfold(zeros + 1);
    let odd = (2 * (high * b + b2 - 1) + 1) as nat;
    assert(high * b + b2 - 1 >= 0) by (nonlinear_arith)
        requires
            b2 >= 1,
            b >= 0,
            high >= 0,
    ;
    assert(v == odd * a) by (nonlinear_arith)
        requires
            v == high * (2 * ab) + (b - 1) * a,
            ab == a * b,
            b == 2 * b2,
            odd == 2 * (high * b + b2 - 1) + 1,
    ;
    lemma_low_zeros_of_multiple(odd, zeros);
    let carried = v + a;
    assert(carried == (2 * high + 1) * ab) by (nonlinear_arith)
        requires
            carried == v + a,
            v == high * (2 * ab) + (b - 1) * a,
            ab == a * b,
    ;
    lemma_low_zeros_of_multiple(2 * high + 1, zeros + ones);
    assert(ab - 1 == (b2 - 1) * (2 * a) + (2 * a - 1)) by (nonlinear_arith)
        requires
            ab == a * b,
            b == 2 * b2,
    ;
    lemma_fundamental_div_mod_converse(ab - 1, (2 * a) as int, b2 - 1, 2 * a - 1);
    assert((2 * high + 1) * ab == high * (2 * ab) + ab) by (nonlinear_arith);
}

/// The next number with as many set bits as `v` is what
/// `spec_next_permutation` gives.
pub proof fn lemma_next_is_successor(v: int)
    requires
        0 < v,
    ensures
        is_successor(v, spec_next_permutation(v)),
{
    lemma2_to0();
    let w = spec_next_permutation(v);
    let (h, r, c) = lemma_next_shape(v);
    let top = pow2(c + r + 1);
    let mid = pow2(c + r);
    let a = pow2(c);
    let b = pow2(r);
    let b2 = pow2((r - 1) as nat);
    lemma_pow2_unfold(c + r + 1);
    lemma_pow2_unfold(r);
    lemma_pow2_adds(c, r);
    lemma_pow2_pos(c);
    lemma_pow2_pos((r - 1) as nat);
    let run = (b - 1) * a;
    assert(run == mid - a && mid >= 2 * a && mid >= b) by (nonlinear_arith)
        requires
            run == (b - 1) * a,
            mid == a * b,
            b == 2 * b2,
            b2 >= 1,
            a >= 1,
    ;
    // The bits of `v`.
    lemma_popcount_split(h as int, c + r + 1, run);
    lemma_popcount_split(b - 1, c, 0);
    lemma_popcount_ones(r);
    // The bits of `w`.
    let moved = mid + b2 - 1;
    lemma_popcount_split(h as int, c + r + 1, moved);
    assert(moved == 1 * mid + (b2 - 1)) by (nonlinear_arith)
        requires
            moved == mid + b2 - 1,
    ;
    lemma_popcount_split(1, c + r, b2 - 1);
    lemma_popcount_ones((r - 1) as nat);
    assert(popcount(1) == 1) by {
        lemma_popcount_double(0);
    }
    assert(v == h * top + run);
    assert(w == h * top + moved);
    // Nothing between them has as many.
    assert forall|x: int| v < x < w implies #[trigger] popcount(x) != popcount(v) by {
        let y = x - h * top;
        lemma_popcount_split(h as int, c + r + 1, y);
        if popcount(y) == r {
            if y < mid {
                lemma_popcount_most(y, c + r, r);
            } else {
                let z = y - mid;
                assert(y == 1 * mid + z) by (nonlinear_arith)
                    requires
                        z == y - mid,
                ;
                lemma_popcount_split(1, c + r, z);
                lemma_popcount_least(z, (r - 1) as nat);
            }
        }
    }
}

/// Only one number is the next with as many set bits.
pub proof fn lemma_successor_unique(v: int, w1: int, w2: int)
    requires
        is_successor(v, w1),
        is_successor(v, w2),
    ensures
        w1 == w2,
{
}

} // verus!
