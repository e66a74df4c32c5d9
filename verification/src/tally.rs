//! Counting bytes and texts with the `counter` crate.

use crate::code::text_views;
use counter::Counter;
use vstd::multiset::Multiset;
use vstd::prelude::*;

verus! {

/// The `counter` crate's `Counter`, a hash map from items to their counts.
#[verifier::external_type_specification]
#[verifier::external_body]
#[verifier::reject_recursive_types(T)]
#[verifier::reject_recursive_types(N)]
#[verifier::reject_recursive_types(S)]
pub struct ExCounter<T, N, S>(Counter<T, N, S>);

/// The entries of a counter of bytes: its items, each with its count.
pub uninterp spec fn byte_tally(c: Counter<u8>) -> Map<u8, usize>;

/// The entries of a counter in which every byte of `m` has been counted:
/// the bytes that occur, each with the number of times it occurs.
pub open spec fn tally_of(m: Multiset<u8>) -> Map<u8, usize> {
    Map::new(|b: u8| m.count(b) > 0, |b: u8| m.count(b) as usize)
}

/// The count of `b` in the entries `t`: zero where `b` is no item.
pub open spec fn tally_count(t: Map<u8, usize>, b: u8) -> nat {
    if t.dom().contains(b) {
        t[b] as nat
    } else {
        0
    }
}

/// The entries `t` after every byte of `m` has been counted as well.
pub open spec fn tally_merge(t: Map<u8, usize>, m: Multiset<u8>) -> Map<u8, usize> {
    Map::new(
        |b: u8| t.dom().contains(b) || m.count(b) > 0,
        |b: u8| (tally_count(t, b) + m.count(b)) as usize,
    )
}

/// `Counter`'s `FromIterator` of the `counter` crate, which `collect` calls:
/// a new counter in which every item of the iterator has been counted, so
/// that its entries are the bytes that occur in `bytes`, each with the
/// number of times it occurs.
#[verifier::external_body]
pub(crate) fn tally_bytes(bytes: &[u8]) -> (made: Counter<u8>)
    ensures
        byte_tally(made) == tally_of(bytes@.to_multiset()),
{
    bytes.iter().cloned().collect()
}

/// `Counter`'s `AddAssign` for an iterable, of the `counter` crate: every
/// item of the iterator is counted in the counter, which adds one to the
/// count of its entry and makes an entry where there was none. No count
/// may leave the range of `usize`.
#[verifier::external_body]
pub(crate) fn tally_add(c: &mut Counter<u8>, bytes: &[u8])
    requires
        forall|b: u8|
            tally_count(byte_tally(*old(c)), b) + #[trigger] bytes@.to_multiset().count(b)
                <= usize::MAX,
    ensures
        byte_tally(*final(c)) == tally_merge(byte_tally(*old(c)), bytes@.to_multiset()),
{
    *c += bytes.iter().cloned();
}

/// `HashMap::get` on the map of a `Counter` of the `counter` crate, which
/// the counter gives by `Deref`: the count of an item that has an entry,
/// nothing for others.
#[verifier::external_body]
pub(crate) fn tally_get(c: &Counter<u8>, b: u8) -> (r: Option<usize>)
    ensures
        r == (if byte_tally(*c).dom().contains(b) {
            Some(byte_tally(*c)[b])
        } else {
            None
        }),
{
    c.get(&b).copied()
}

/// `Counter`'s `PartialEq` of the `counter` crate: two counters are equal
/// exactly if their maps are, that is if they have the same entries.
#[verifier::external_body]
pub(crate) fn tally_eq(a: &Counter<u8>, b: &Counter<u8>) -> (r: bool)
    ensures
        r == (byte_tally(*a) == byte_tally(*b)),
{
    a == b
}

/// `HashMap::iter` on the map of a `Counter` of the `counter` crate: every
/// entry once, in an order that is not fixed.
#[verifier::external_body]
pub(crate) fn tally_entries(c: &Counter<u8>) -> (r: Vec<(u8, usize)>)
    ensures
        forall|i: int|
            0 <= i < r@.len() ==> byte_tally(*c).dom().contains((#[trigger] r@[i]).0)
                && byte_tally(*c)[r@[i].0] == r@[i].1,
        forall|i: int, j: int| 0 <= i < j < r@.len() ==> (#[trigger] r@[i]).0 != (#[trigger] r@[j]).0,
        forall|b: u8|
            byte_tally(*c).dom().contains(b) ==> exists|i: int|
                0 <= i < r@.len() && (#[trigger] r@[i]).0 == b,
{
    c.iter().map(|(b, n)| (*b, *n)).collect()
}

/// The entries of a counter of texts: its items, by their characters, each
/// with its count.
pub uninterp spec fn text_tally(c: Counter<String>) -> Map<Seq<char>, usize>;

/// The entries of a counter in which every text of `m` has been counted.
pub open spec fn text_tally_of(m: Multiset<Seq<char>>) -> Map<Seq<char>, usize> {
    Map::new(|t: Seq<char>| m.count(t) > 0, |t: Seq<char>| m.count(t) as usize)
}

/// `Counter`'s `FromIterator` of the `counter` crate, which `collect` calls:
/// a new counter in which every text of the list has been counted, so that
/// its entries are the texts that occur in the list, each with the number
/// of times it occurs.
#[verifier::external_body]
pub(crate) fn tally_texts(texts: Vec<String>) -> (made: Counter<String>)
    ensures
        text_tally(made) == text_tally_of(text_views(texts@).to_multiset()),
{
    texts.into_iter().collect()
}

/// `HashMap::iter` on the map of a `Counter` of the `counter` crate: every
/// entry once, in an order that is not fixed.
#[verifier::external_body]
pub(crate) fn text_entries(c: &Counter<String>) -> (r: Vec<(String, usize)>)
    ensures
        forall|i: int|
            0 <= i < r@.len() ==> text_tally(*c).dom().contains((#[trigger] r@[i]).0@)
                && text_tally(*c)[r@[i].0@] == r@[i].1,
        forall|i: int, j: int|
            0 <= i < j < r@.len() ==> (#[trigger] r@[i]).0@ != (#[trigger] r@[j]).0@,
        forall|t: Seq<char>|
            text_tally(*c).dom().contains(t) ==> exists|i: int|
                0 <= i < r@.len() && (#[trigger] r@[i]).0@ == t,
{
    c.iter().map(|(t, n)| (t.clone(), *n)).collect()
}

/// What `std`'s `str::trim` returns: the text without the white space at
/// its two ends.
pub uninterp spec fn trimmed(text: Seq<char>) -> Seq<char>;

/// `std`'s `str::trim`: the text without leading and trailing white space.
#[verifier::external_body]
pub(crate) fn trim(text: &str) -> (r: &str)
    ensures
        r@ == trimmed(text@),
{
    text.trim()
}

} // verus!
