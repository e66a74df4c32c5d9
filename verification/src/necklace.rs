//! String necklaces: strings taken up to rotation.

use crate::code::text_views;
use crate::lex::{
    lemma_lex_lt_at, lemma_lex_lt_irreflexive, lemma_lex_lt_transitive, lex_le, lex_lt,
};
use std::collections::VecDeque;
use vstd::prelude::*;

verus! {

/// `s` turned to the left by `k` places.
pub open spec fn rotate(s: Seq<char>, k: int) -> Seq<char> {
    s.subrange(k, s.len() as int) + s.subrange(0, k)
}

/// `c` is the least of the rotations of `s`.
pub open spec fn is_least_rotation(s: Seq<char>, c: Seq<char>) -> bool {
    &&& exists|k: int| 0 <= k <= s.len() && c == #[trigger] rotate(s, k)
    &&& forall|k: int| 0 <= k <= s.len() ==> lex_le(c, #[trigger] rotate(s, k))
}

/// The number of `k` below `n` for which `s` turned by `k` places is `s`.
pub open spec fn fixed_rotations(s: Seq<char>, n: nat) -> nat
    decreases n,
{
    if n == 0 {
        0
    } else {
        fixed_rotations(s, (n - 1) as nat) + if rotate(s, n - 1) == s {
            1nat
        } else {
            0nat
        }
    }
}

/// How often a string repeats a shorter pattern: the number of rotations
/// that leave it as it is, and 1 for the empty string.
pub open spec fn spec_repeats(s: Seq<char>) -> nat {
    if s.len() == 0 {
        1
    } else {
        fixed_rotations(s, s.len())
    }
}

/// The number of the first `n` words whose least rotation is `c`.
pub open spec fn count_matches(words: Seq<Seq<char>>, c: Seq<char>, n: nat) -> nat
    decreases n,
{
    if n == 0 {
        0
    } else {
        count_matches(words, c, (n - 1) as nat) + if is_least_rotation(words[n - 1], c) {
            1nat
        } else {
            0nat
        }
    }
}

/// Character `i` of `d` turned by `shift` places.
fn rotated_at(d: &VecDeque<char>, shift: usize, i: usize) -> (c: char)
    requires
        shift < d@.len(),
        i < d@.len(),
    ensures
        c == rotate(d@, shift as int)[i as int],
{
    let n = d.len();
    if i < n - shift {
        d[shift + i]
    } else {
        d[i - (n - shift)]
    }
}

/// Whether `d` turned by `a` places comes before `d` turned by `b` places.
fn rotation_less(d: &VecDeque<char>, a: usize, b: usize) -> (r: bool)
    requires
        a < d@.len(),
        b < d@.len(),
    ensures
        r == lex_lt(rotate(d@, a as int), rotate(d@, b as int)),
        !r ==> lex_le(rotate(d@, b as int), rotate(d@, a as int)),
{
    let n = d.len();
    let ghost ra = rotate(d@, a as int);
    let ghost rb = rotate(d@, b as int);
    let mut i: usize = 0;
    while i < n
        invariant
            i <= n,
            n == d@.len(),
            a < n,
            b < n,
            ra == rotate(d@, a as int),
            rb == rotate(d@, b as int),
            ra.take(i as int) == rb.take(i as int),
        decreases n - i,
    {
        let x = rotated_at(d, a, i);
        let y = rotated_at(d, b, i);
        if x < y {
            proof {
                lemma_lex_lt_at(ra, rb, i as int);
            }
            return true;
        }
        if y < x {
            proof {
                lemma_lex_lt_at(rb, ra, i as int);
                if lex_lt(ra, rb) {
                    lemma_lex_lt_transitive(ra, rb, ra);
                    lemma_lex_lt_irreflexive(ra);
                }
            }
            return false;
        }
        proof {
            assert(ra.take(i + 1) =~= ra.take(i as int).push(ra[i as int]));
            assert(rb.take(i + 1) =~= rb.take(i as int).push(rb[i as int]));
        }
        i += 1;
    }
    proof {
        assert(ra.take(n as int) =~= ra);
        assert(rb.take(n as int) =~= rb);
        lemma_lex_lt_irreflexive(ra);
    }
    false
}

/// Whether `d` turned by `shift` places is `d`.
fn rotation_same(d: &VecDeque<char>, shift: usize) -> (r: bool)
    requires
        shift < d@.len(),
    ensures
        r == (rotate(d@, shift as int) == d@),
{
    let n = d.len();
    let ghost turned = rotate(d@, shift as int);
    let mut i: usize = 0;
    while i < n
        invariant
            i <= n,
            n == d@.len(),
            shift < n,
            turned == rotate(d@, shift as int),
            turned.take(i as int) == d@.take(i as int),
        decreases n - i,
    {
        if rotated_at(d, shift, i) != d[i] {
            return false;
        }
        proof {
            assert(turned.take(i + 1) =~= turned.take(i as int).push(turned[i as int]));
            assert(d@.take(i + 1) =~= d@.take(i as int).push(d@[i as int]));
        }
        i += 1;
    }
    proof {
        assert(turned.take(n as int) =~= turned);
        assert(d@.take(n as int) =~= d@);
    }
    true
}

/// A string up to rotation, kept as the least of its rotations.
#[derive(Debug, Clone, PartialEq, Eq, Hash)]
pub struct StringNecklace(VecDeque<char>);

impl View for StringNecklace {
    type V = Seq<char>;

    /// The characters of the necklace.
    closed spec fn view(&self) -> Seq<char> {
        self.0@
    }
}

impl StringNecklace {
    /// The necklace of `s`: the least of its rotations.
    pub fn new(s: &str) -> (r: StringNecklace)
        ensures
            is_least_rotation(s@, r@),
    {
        let mut d: VecDeque<char> = VecDeque::new();
        let it = s.chars();
        for c in iter: it
            invariant
                iter.seq() == s@,
                d@ == s@.take(iter.index()),
        {
            d.push_back(c);
            proof {
                let i = iter.index();
                assert(s@.take(i + 1) =~= s@.take(i).push(s@[i]));
            }
        }
        assert(s@.take(s@.len() as int) =~= s@);
        let n = d.len();
        if n == 0 {
            proof {
                assert(rotate(s@, 0) =~= d@);
            }
            return StringNecklace(d);
        }
        let mut best: usize = 0;
        let mut shift: usize = 1;
        while shift < n
            invariant
                1 <= shift <= n,
                n == d@.len(),
                best < shift,
                forall|k: int|
                    0 <= k < shift ==> lex_le(
                        rotate(d@, best as int),
                        #[trigger] rotate(d@, k),
                    ),
            decreases n - shift,
        {
            if rotation_less(&d, shift, best) {
                proof {
                    let least = rotate(d@, shift as int);
                    let before = rotate(d@, best as int);
                    assert forall|k: int| 0 <= k < shift + 1 implies lex_le(
                        least,
                        #[trigger] rotate(d@, k),
                    ) by {
                        if k < shift && rotate(d@, k) != before {
                            lemma_lex_lt_transitive(least, before, rotate(d@, k));
                        }
                    }
                }
                best = shift;
            }
            shift += 1;
        }
        let mut out: VecDeque<char> = VecDeque::new();
        let mut i: usize = 0;
        while i < n
            invariant
                i <= n,
                n == d@.len(),
                best < n,
                out@ == rotate(d@, best as int).take(i as int),
            decreases n - i,
        {
            out.push_back(rotated_at(&d, best, i));
            proof {
                let turned = rotate(d@, best as int);
                assert(turned.take(i + 1) =~= turned.take(i as int).push(turned[i as int]));
            }
            i += 1;
        }
        proof {
            let turned = rotate(d@, best as int);
            assert(turned.take(n as int) =~= turned);
            assert(rotate(d@, n as int) =~= rotate(d@, 0));
        }
        StringNecklace(out)
    }

    /// Number of characters.
    pub fn len(&self) -> (n: usize)
        ensures
            n == self@.len(),
    {
        self.0.len()
    }

    /// How often the necklace repeats a shorter pattern.
    pub fn repeats(&self) -> (count: usize)
        ensures
            count == spec_repeats(self@),
    {
        if self.0.len() == 0 {
            return 1;
        }
        let n = self.0.len();
        let mut count: usize = 0;
        let mut shift: usize = 0;
        while shift < n
            invariant
                shift <= n,
                n == self.0@.len(),
                count == fixed_rotations(self.0@, shift as nat),
                count <= shift,
            decreases n - shift,
        {
            if rotation_same(&self.0, shift) {
                count += 1;
            }
            shift += 1;
        }
        count
    }

    /// Whether two necklaces are the same.
    pub fn same_as(&self, other: &StringNecklace) -> (r: bool)
        ensures
            r == (self@ == other@),
    {
        let n = self.0.len();
        if other.0.len() != n {
            return false;
        }
        let mut i: usize = 0;
        while i < n
            invariant
                i <= n,
                n == self.0@.len(),
                n == other.0@.len(),
                self.0@.take(i as int) == other.0@.take(i as int),
            decreases n - i,
        {
            if self.0[i] != other.0[i] {
                return false;
            }
            proof {
                assert(self.0@.take(i + 1) =~= self.0@.take(i as int).push(self.0@[i as int]));
                assert(other.0@.take(i + 1) =~= other.0@.take(i as int).push(other.0@[i as int]));
            }
            i += 1;
        }
        proof {
            assert(self.0@.take(n as int) =~= self.0@);
            assert(other.0@.take(n as int) =~= other.0@);
        }
        true
    }
}

/// `b` is `a` turned by some number of places.
pub open spec fn is_rotation(a: Seq<char>, b: Seq<char>) -> bool {
    exists|k: int| 0 <= k <= a.len() && b == #[trigger] rotate(a, k)
}

/// Turning a string by `k` places and then by `j` more turns it by `k + j`
/// places, counted around the string.
pub proof fn lemma_rotate_twice(s: Seq<char>, k: int, j: int)
    requires
        0 <= k <= s.len(),
        0 <= j <= s.len(),
    ensures
        rotate(rotate(s, k), j) == rotate(
            s,
            if k + j <= s.len() {
                k + j
            } else {
                k + j - s.len()
            },
        ),
        rotate(s, k).len() == s.len(),
        rotate(s, 0) == s,
        rotate(s, s.len() as int) == s,
{
    let turned = rotate(s, if k + j <= s.len() {
        k + j
    } else {
        k + j - s.len()
    });
    assert(rotate(rotate(s, k), j) =~= turned);
    assert(rotate(s, 0) =~= s);
    assert(rotate(s, s.len() as int) =~= s);
}

/// The rotations of a rotation of `a` are the rotations of `a`.
proof fn lemma_rotations_of_rotation(a: Seq<char>, b: Seq<char>, c: Seq<char>)
    requires
        is_rotation(a, b),
    ensures
        is_rotation(b, a),
        is_rotation(a, c) <==> is_rotation(b, c),
{
    let n = a.len() as int;
    let k = choose|k: int| 0 <= k <= a.len() && b == #[trigger] rotate(a, k);
    lemma_rotate_twice(a, k, n - k);
    assert(a == rotate(b, n - k));
    if is_rotation(a, c) {
        let j = choose|j: int| 0 <= j <= a.len() && c == #[trigger] rotate(a, j);
        lemma_rotate_twice(b, n - k, j);
    }
    if is_rotation(b, c) {
        let j = choose|j: int| 0 <= j <= b.len() && c == #[trigger] rotate(b, j);
        lemma_rotate_twice(a, k, j);
    }
}

/// Two strings have the same necklace exactly if one of them is the other
/// turned by some number of places.
pub proof fn lemma_same_necklace(a: Seq<char>, b: Seq<char>, ca: Seq<char>, cb: Seq<char>)
    requires
        is_least_rotation(a, ca),
        is_least_rotation(b, cb),
    ensures
        ca == cb <==> is_rotation(a, b),
{
    if is_rotation(a, b) {
        lemma_rotations_of_rotation(a, b, cb);
        assert(is_rotation(b, cb));
        assert forall|k: int| 0 <= k <= a.len() implies lex_le(cb, #[trigger] rotate(a, k)) by {
            lemma_rotations_of_rotation(a, b, rotate(a, k));
            assert(is_rotation(a, rotate(a, k)));
            let j = choose|j: int| 0 <= j <= b.len() && rotate(a, k) == #[trigger] rotate(b, j);
            assert(lex_le(cb, rotate(b, j)));
        }
        assert(is_rotation(a, cb));
        lemma_least_rotation_unique(a, ca, cb);
    }
    if ca == cb {
        assert(is_rotation(a, ca));
        assert(is_rotation(b, ca));
        lemma_rotations_of_rotation(b, ca, b);
        lemma_rotations_of_rotation(a, ca, b);
        lemma_rotate_twice(b, 0, 0);
        assert(is_rotation(b, b)) by {
            assert(b == rotate(b, 0));
        }
    }
}

/// A string has only one least rotation.
pub proof fn lemma_least_rotation_unique(s: Seq<char>, c1: Seq<char>, c2: Seq<char>)
    requires
        is_least_rotation(s, c1),
        is_least_rotation(s, c2),
    ensures
        c1 == c2,
{
    let k1 = choose|k: int| 0 <= k <= s.len() && c1 == #[trigger] rotate(s, k);
    let k2 = choose|k: int| 0 <= k <= s.len() && c2 == #[trigger] rotate(s, k);
    assert(lex_le(c1, rotate(s, k2)));
    assert(lex_le(c2, rotate(s, k1)));
    if c1 != c2 {
        lemma_lex_lt_transitive(c1, c2, c1);
        lemma_lex_lt_irreflexive(c1);
    }
}

/// Where none of the first `n` words has `c` as its least rotation, the
/// count of those that have is zero; and no count is above `n`.
proof fn lemma_count_matches(words: Seq<Seq<char>>, c: Seq<char>, n: nat)
    requires
        n <= words.len(),
    ensures
        count_matches(words, c, n) <= n,
        (forall|w: int| 0 <= w < n ==> !is_least_rotation(#[trigger] words[w], c))
            ==> count_matches(words, c, n) == 0,
    decreases n,
{
    if n > 0 {
        lemma_count_matches(words, c, (n - 1) as nat);
    }
}

/// The necklaces of a list of words, each with the number of words that
/// have it.
pub fn matches_in(words: &Vec<String>) -> (out: Vec<(StringNecklace, usize)>)
    ensures
        forall|i: int|
            0 <= i < out@.len() ==> (#[trigger] out@[i]).1 > 0 && out@[i].1 == count_matches(
                text_views(words@),
                out@[i].0@,
                words@.len(),
            ),
        forall|i: int, j: int|
            0 <= i < j < out@.len() ==> (#[trigger] out@[i]).0@ != (#[trigger] out@[j]).0@,
        forall|w: int|
            0 <= w < words@.len() ==> exists|i: int|
                0 <= i < out@.len() && is_least_rotation(
                    #[trigger] words@[w]@,
                    (#[trigger] out@[i]).0@,
                ),
{
    let ghost views = text_views(words@);
    let mut necklaces: Vec<StringNecklace> = Vec::new();
    let mut counts: Vec<usize> = Vec::new();
    let mut w: usize = 0;
    while w < words.len()
        invariant
            w <= words@.len(),
            views == text_views(words@),
            necklaces@.len() == counts@.len(),
            forall|i: int|
                0 <= i < counts@.len() ==> #[trigger] counts@[i] > 0 && counts@[i]
                    == count_matches(views, necklaces@[i]@, w as nat),
            forall|i: int, j: int|
                0 <= i < j < necklaces@.len() ==> (#[trigger] necklaces@[i])@
                    != (#[trigger] necklaces@[j])@,
            forall|v: int|
                0 <= v < w ==> exists|i: int|
                    0 <= i < necklaces@.len() && is_least_rotation(
                        #[trigger] views[v],
                        (#[trigger] necklaces@[i])@,
                    ),
        decreases words@.len() - w,
    {
        let necklace = StringNecklace::new(words[w].as_str());
        let ghost word = views[w as int];
        assert(word == words@[w as int]@);
        let mut at: usize = 0;
        while at < necklaces.len() && !necklaces[at].same_as(&necklace)
            invariant
                at <= necklaces@.len(),
                forall|i: int| 0 <= i < at ==> (#[trigger] necklaces@[i])@ != necklace@,
            decreases necklaces@.len() - at,
        {
            at += 1;
        }
        let ghost old_necklaces = necklaces@;
        let ghost old_counts = counts@;
        proof {
            assert forall|i: int| 0 <= i < old_counts.len() implies count_matches(
                views,
                old_necklaces[i]@,
                (w + 1) as nat,
            ) == old_counts[i] + if old_necklaces[i]@ == necklace@ {
                1nat
            } else {
                0nat
            } && #[trigger] old_counts[i] <= w by {
                if is_least_rotation(word, old_necklaces[i]@) {
                    lemma_least_rotation_unique(word, old_necklaces[i]@, necklace@);
                }
                lemma_count_matches(views, old_necklaces[i]@, w as nat);
            }
        }
        if at < necklaces.len() {
            let count = counts[at];
            counts.set(at, count + 1);
            proof {
                assert forall|i: int| 0 <= i < counts@.len() implies #[trigger] counts@[i] > 0
                    && counts@[i] == count_matches(views, necklaces@[i]@, (w + 1) as nat) by {
                    assert(old_counts[i] <= w);
                    if i != at {
                        if i < at {
                            assert(old_necklaces[i]@ != necklace@);
                        } else {
                            assert(old_necklaces[at as int]@ != old_necklaces[i]@);
                        }
                    }
                }
            }
        } else {
            proof {
                assert forall|v: int| 0 <= v < w implies !is_least_rotation(
                    #[trigger] views[v],
                    necklace@,
                ) by {
                    if is_least_rotation(views[v], necklace@) {
                        let i = choose|i: int|
                            0 <= i < old_necklaces.len() && is_least_rotation(
                                views[v],
                                (#[trigger] old_necklaces[i])@,
                            );
                        lemma_least_rotation_unique(views[v], old_necklaces[i]@, necklace@);
                    }
                }
                lemma_count_matches(views, necklace@, w as nat);
            }
            necklaces.push(necklace);
            counts.push(1);
            proof {
                assert forall|i: int| 0 <= i < counts@.len() implies #[trigger] counts@[i] > 0
                    && counts@[i] == count_matches(views, necklaces@[i]@, (w + 1) as nat) by {
                    if i < old_counts.len() {
                        assert(necklaces@[i] == old_necklaces[i]);
                        assert(old_counts[i] <= w);
                    }
                }
                assert forall|i: int, j: int| 0 <= i < j < necklaces@.len() implies (
                #[trigger] necklaces@[i])@ != (#[trigger] necklaces@[j])@ by {
                    assert(necklaces@[i] == old_necklaces[i]);
                    if j < old_necklaces.len() {
                        assert(necklaces@[j] == old_necklaces[j]);
                    }
                }
            }
        }
        proof {
            assert forall|v: int| 0 <= v < w + 1 implies exists|i: int|
                0 <= i < necklaces@.len() && is_least_rotation(
                    #[trigger] views[v],
                    (#[trigger] necklaces@[i])@,
                ) by {
                if v < w {
                    let i = choose|i: int|
                        0 <= i < old_necklaces.len() && is_least_rotation(
                            views[v],
                            (#[trigger] old_necklaces[i])@,
                        );
                    assert(necklaces@[i] == old_necklaces[i]);
                } else {
                    assert(is_least_rotation(views[v], necklaces@[at as int]@));
                }
            }
        }
        w += 1;
    }
    let ghost all = necklaces@;
    let ghost all_counts = counts@;
    let mut out: Vec<(StringNecklace, usize)> = Vec::new();
    while necklaces.len() > 0
        invariant
            necklaces@.len() == counts@.len(),
            necklaces@.len() + out@.len() == all.len(),
            all.len() == all_counts.len(),
            forall|i: int| 0 <= i < necklaces@.len() ==> necklaces@[i] == all[i],
            forall|i: int| 0 <= i < counts@.len() ==> counts@[i] == all_counts[i],
            forall|i: int|
                0 <= i < out@.len() ==> (#[trigger] out@[i]).0 == all[all.len() - 1 - i]
                    && out@[i].1 == all_counts[all.len() - 1 - i],
        decreases necklaces@.len(),
    {
        let necklace = necklaces.pop().unwrap();
        let count = counts.pop().unwrap();
        out.push((necklace, count));
    }
    proof {
        let n = all.len() as int;
        assert forall|i: int, j: int| 0 <= i < j < out@.len() implies (#[trigger] out@[i]).0@ != (
        #[trigger] out@[j]).0@ by {
            assert(all[n - 1 - j]@ != all[n - 1 - i]@);
        }
        assert forall|v: int| 0 <= v < words@.len() implies exists|i: int|
            0 <= i < out@.len() && is_least_rotation(
                #[trigger] words@[v]@,
                (#[trigger] out@[i]).0@,
            ) by {
            assert(views[v] == words@[v]@);
            let k = choose|k: int|
                0 <= k < all.len() && is_least_rotation(views[v], (#[trigger] all[k])@);
            assert(out@[n - 1 - k].0 == all[k]);
        }
        assert forall|i: int| 0 <= i < out@.len() implies (#[trigger] out@[i]).1 > 0 && out@[i].1
            == count_matches(text_views(words@), out@[i].0@, words@.len()) by {
            assert(all_counts[n - 1 - i] > 0);
        }
    }
    out
}

} // verus!
