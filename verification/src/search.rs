//! The search for the first candidate with exactly one decoding: one
//! candidate per step, with a checkpoint when it is cancelled.

use crate::bits::{lemma_next_is_successor, popcount, spec_next_permutation};
use crate::decoder::{has_unique_decoding, unique_decoding};
use crate::decoding::decodings;
use crate::input_generator::{
    lemma_pow2_values, lemma_round_trip, spec_render, spec_start, InputGenerator, HIGH_ALPHABET,
    LOW_ALPHABET,
};
use std::sync::atomic::AtomicBool;
use std::sync::atomic::Ordering;
use vstd::prelude::*;

verus! {

/// The cancellation signal is looked at before every candidate whose number
/// has these bits clear: every 4096 candidates.
pub const POLL_MASK: u128 = 0xfff;

/// A sign of life is due before every candidate whose number has these bits
/// clear: every 1048576 candidates.
pub const LIVENESS_MASK: u128 = 0xf_ffff;

/// How a search ends.
#[derive(Debug, PartialEq, Eq)]
pub enum Outcome {
    /// A candidate with exactly one decoding, and that decoding.
    Found { candidate: String, decoding: String },
    /// The search was cancelled before it examined the candidate of token
    /// `checkpoint`, after `examined` others.
    Cancelled { checkpoint: i128, examined: u128 },
    /// No candidate up to the highest token has exactly one decoding.
    Exhausted,
}

/// The candidate of `token` has exactly one decoding.
pub open spec fn is_winner(token: int) -> bool {
    has_unique_decoding(spec_render(token))
}

/// The token that a search from `start` comes to after `k` candidates.
pub open spec fn token_after(start: int, k: nat) -> int
    decreases k,
{
    if k == 0 {
        start
    } else {
        spec_next_permutation(token_after(start, (k - 1) as nat))
    }
}

/// None of the first `k` candidates of a search from `start` wins, and each
/// is within the range of tokens.
pub open spec fn none_wins(start: int, k: nat) -> bool {
    forall|j: nat|
        j < k ==> #[trigger] token_after(start, j) <= HIGH_ALPHABET && !is_winner(
            token_after(start, j),
        )
}

/// The token of the first winner among the candidates from `token` up to the
/// highest token, if there is one.
pub open spec fn first_winner(token: int) -> Option<int>
    decreases
            (if token > HIGH_ALPHABET {
                0
            } else {
                HIGH_ALPHABET - token + 1
            }),
    when 0 < token
    via first_winner_decreases
{
    if token > HIGH_ALPHABET {
        None
    } else if is_winner(token) {
        Some(token)
    } else {
        first_winner(spec_next_permutation(token))
    }
}

/// The next token is above the token, and so nearer to the end of the range.
#[via_fn]
proof fn first_winner_decreases(token: int) {
    lemma_next_is_successor(token);
}

/// What a step does with the candidate of `token`, the candidate number
/// `examined` of the search.
pub enum Decision {
    /// Nothing is left to examine.
    Exhaust,
    /// The search stops before the candidate.
    Cancel,
    /// The candidate is examined.
    Examine,
}

/// The decision of a step: the search is exhausted above the highest token;
/// it stops where the signal is set and looking at it is due; otherwise it
/// examines the candidate.
pub open spec fn decide(token: int, examined: nat, cancelled: bool) -> Decision {
    if token > HIGH_ALPHABET {
        Decision::Exhaust
    } else if cancelled && examined % 4096 == 0 {
        Decision::Cancel
    } else {
        Decision::Examine
    }
}

/// The tokens of a search grow, so that a search has examined no more
/// candidates than lie between its start and its token.
pub proof fn lemma_token_after_grows(start: int, k: nat)
    requires
        0 < start,
    ensures
        start + k <= token_after(start, k),
    decreases k,
{
    if k > 0 {
        lemma_token_after_grows(start, (k - 1) as nat);
        lemma_next_is_successor(token_after(start, (k - 1) as nat));
    }
}

/// Every token of a search has as many set bits as the token at which the
/// search began.
pub proof fn lemma_token_after_popcount(start: int, k: nat)
    requires
        0 < start,
    ensures
        popcount(token_after(start, k)) == popcount(start),
    decreases k,
{
    if k > 0 {
        lemma_token_after_popcount(start, (k - 1) as nat);
        lemma_token_after_grows(start, (k - 1) as nat);
        lemma_next_is_successor(token_after(start, (k - 1) as nat));
    }
}

/// A search that is cancelled and started again at its checkpoint finds
/// what the search would have found without the interruption: from the
/// token that a search has reached without a winner, the first winner is
/// that of the whole search.
pub proof fn lemma_resume(start: int, k: nat)
    requires
        0 < start,
        none_wins(start, k),
    ensures
        first_winner(token_after(start, k)) == first_winner(start),
    decreases k,
{
    if k > 0 {
        let j = (k - 1) as nat;
        assert(none_wins(start, j)) by {
            assert forall|i: nat| i < j implies #[trigger] token_after(start, i) <= HIGH_ALPHABET
                && !is_winner(token_after(start, i)) by {
                assert(i < k);
            }
        }
        lemma_resume(start, j);
        lemma_token_after_grows(start, j);
        let before = token_after(start, j);
        assert(before <= HIGH_ALPHABET && !is_winner(before));
        assert(0 < before);
        assert(token_after(start, k) == spec_next_permutation(before));
        lemma_next_is_successor(before);
        assert(first_winner(before) == first_winner(spec_next_permutation(before)));
    }
}

/// The tokens of a search come in ascending order.
pub proof fn lemma_token_after_ascends(start: int, i: nat, j: nat)
    requires
        0 < start,
        i <= j,
    ensures
        token_after(start, i) <= token_after(start, j),
    decreases j,
{
    if i < j {
        lemma_token_after_ascends(start, i, (j - 1) as nat);
        lemma_token_after_grows(start, (j - 1) as nat);
        lemma_next_is_successor(token_after(start, (j - 1) as nat));
    }
}

/// A checkpoint is a token in range, so that a search started again at it
/// begins exactly there.
pub proof fn lemma_checkpoint_in_range(start: int, k: nat)
    requires
        LOW_ALPHABET <= start,
        token_after(start, k) <= HIGH_ALPHABET,
    ensures
        spec_start(token_after(start, k)) == token_after(start, k),
{
    lemma_token_after_grows(start, k);
}

/// A search whose signal is set before its first candidate stops at its
/// start, with nothing examined.
pub proof fn lemma_cancel_at_start(start: int)
    ensures
        decide(spec_start(start), 0, true) == Decision::Cancel,
{
}

/// The state of a search: where it began, how many candidates it has
/// examined, and the token of the candidate that comes next.
pub struct SearchDriver {
    origin: i128,
    token: i128,
    examined: u128,
}

impl SearchDriver {
    /// The search stands at the token that follows its start after the
    /// candidates it has examined, none of which has won.
    #[verifier::type_invariant]
    spec fn consistent(&self) -> bool {
        &&& LOW_ALPHABET <= self.origin
        &&& self.token == token_after(self.origin as int, self.examined as nat)
        &&& none_wins(self.origin as int, self.examined as nat)
    }

    /// The token at which the search began.
    pub closed spec fn origin(&self) -> i128 {
        self.origin
    }

    /// The token of the candidate that is examined next.
    pub closed spec fn token(&self) -> i128 {
        self.token
    }

    /// The number of candidates that the search has examined.
    pub closed spec fn examined(&self) -> u128 {
        self.examined
    }

    /// What holds of every search: it stands at the token that follows its
    /// start after the candidates it has examined, none of which has won.
    pub open spec fn on_track(&self) -> bool {
        &&& LOW_ALPHABET <= self.origin()
        &&& self.token() == token_after(self.origin() as int, self.examined() as nat)
        &&& none_wins(self.origin() as int, self.examined() as nat)
    }

    /// The token of the first winner from the start of the search, if there
    /// is one.
    pub open spec fn target(&self) -> Option<int> {
        first_winner(self.origin() as int)
    }

    /// The search has examined candidates since `earlier`, a state of the
    /// same search.
    pub open spec fn is_past(&self, earlier: &SearchDriver) -> bool {
        self.origin() == earlier.origin() && self.examined() > earlier.examined()
    }

    /// The search stands where `earlier` stood.
    pub open spec fn is_at(&self, earlier: &SearchDriver) -> bool {
        &&& self.origin() == earlier.origin()
        &&& self.examined() == earlier.examined()
        &&& self.token() == earlier.token()
    }

    /// A sign of life is due before the next step.
    pub open spec fn liveness_is_due(&self) -> bool {
        self.examined() % 1048576 == 0
    }

    /// `outcome` is how the search ends where it stands: with the first
    /// winner of the whole search, which is the candidate at which it
    /// stands; or cancelled at that candidate, from where the first winner
    /// is that of the whole search; or with no winner at all, above the
    /// highest token.
    pub open spec fn ends_with(&self, outcome: Outcome) -> bool {
        match outcome {
            Outcome::Found { candidate, decoding } => {
                &&& self.token() <= HIGH_ALPHABET
                &&& self.target() == Some(self.token() as int)
                &&& candidate@ == spec_render(self.token() as int)
                &&& decodings(candidate@) == Set::<Seq<char>>::empty().insert(decoding@)
            },
            Outcome::Cancelled { checkpoint, examined } => {
                &&& checkpoint == self.token()
                &&& examined == self.examined()
                &&& examined % 4096 == 0
                &&& LOW_ALPHABET <= checkpoint <= HIGH_ALPHABET
                &&& first_winner(checkpoint as int) == self.target()
            },
            Outcome::Exhausted => self.token() > HIGH_ALPHABET && self.target() == None::<int>,
        }
    }

    /// A search that begins at `start`, or at the lowest token where there is
    /// none or it is outside the range of tokens.
    pub fn new(start: Option<i128>) -> (r: SearchDriver)
        ensures
            r.on_track(),
            r.examined() == 0,
            r.token() == r.origin(),
            r.origin() == match start {
                Some(n) => spec_start(n as int),
                None => LOW_ALPHABET as int,
            },
    {
        let mut candidates = InputGenerator::maybe_start_at(start);
        let origin = candidates.get_n();
        SearchDriver { origin, token: origin, examined: 0 }
    }

    /// Whether the cancellation signal is to be looked at before the next
    /// step.
    pub fn poll_due(&self) -> (r: bool)
        ensures
            r == (self.examined() % 4096 == 0),
    {
        let examined = self.examined;
        assert(examined & 0xfff == 0 <==> examined % 4096 == 0) by (bit_vector);
        self.examined & POLL_MASK == 0
    }

    /// Whether a sign of life is due before the next step.
    pub fn liveness_due(&self) -> (r: bool)
        ensures
            r == (self.examined() % 1048576 == 0),
    {
        let examined = self.examined;
        assert(examined & 0xf_ffff == 0 <==> examined % 1048576 == 0) by (bit_vector);
        self.examined & LIVENESS_MASK == 0
    }

    /// One step of the search. `cancelled` is the cancellation signal as the
    /// caller has read it; it counts only where looking at it is due.
    ///
    /// Returns how the search ended, or `None` when the candidate did not
    /// win and the search goes on with the next.
    pub fn step(&mut self, cancelled: bool) -> (r: Option<Outcome>)
        ensures
            old(self).on_track(),
            final(self).on_track(),
            final(self).origin() == old(self).origin(),
            r matches Some(outcome) ==> final(self).is_at(old(self)) && final(self).ends_with(
                outcome,
            ),
            match decide(old(self).token() as int, old(self).examined() as nat, cancelled) {
                Decision::Exhaust => r == Some(Outcome::Exhausted),
                Decision::Cancel => r == Some(
                    Outcome::Cancelled {
                        checkpoint: old(self).token(),
                        examined: old(self).examined(),
                    },
                ),
                Decision::Examine => match r {
                    Some(Outcome::Found { candidate, decoding }) => {
                        &&& is_winner(old(self).token() as int)
                        &&& candidate@ == spec_render(old(self).token() as int)
                        &&& decodings(candidate@) == Set::<Seq<char>>::empty().insert(decoding@)
                    },
                    None => {
                        &&& !is_winner(old(self).token() as int)
                        &&& final(self).token() == spec_next_permutation(old(self).token() as int)
                        &&& final(self).token() > old(self).token()
                        &&& final(self).examined() == old(self).examined() + 1
                    },
                    _ => false,
                },
            },
    {
        proof {
            use_type_invariant(&*self);
            lemma_token_after_grows(self.origin as int, self.examined as nat);
            lemma_resume(self.origin as int, self.examined as nat);
            lemma_pow2_values();
        }
        let due = self.poll_due();
        let ghost token = self.token;
        let ghost count = self.examined as nat;
        if self.token > HIGH_ALPHABET {
            return Some(Outcome::Exhausted);
        }
        let mut candidates = InputGenerator::start_at(self.token);
        match candidates.next() {
            None => vstd::pervasive::unreached(),
            Some(candidate) => {
                if cancelled && due {
                    let text = candidate.as_str();
                    proof {
                        lemma_round_trip(token as int, text);
                    }
                    let checkpoint = InputGenerator::i2n(text);
                    Some(Outcome::Cancelled { checkpoint, examined: self.examined })
                } else {
                    match unique_decoding(candidate.as_str()) {
                        Some(decoding) => Some(Outcome::Found { candidate, decoding }),
                        None => {
                            proof {
                                lemma_next_is_successor(token as int);
                                assert(token_after(self.origin as int, count + 1)
                                    == spec_next_permutation(
                                    token_after(self.origin as int, count),
                                ));
                                lemma_token_after_grows(self.origin as int, count + 1);
                                assert(none_wins(self.origin as int, count + 1)) by {
                                    assert forall|j: nat| j < count + 1 implies #[trigger] token_after(
                                        self.origin as int,
                                        j,
                                    ) <= HIGH_ALPHABET && !is_winner(
                                        token_after(self.origin as int, j),
                                    ) by {
                                        if j < count {
                                        }
                                    }
                                }
                            }
                            *self = SearchDriver {
                                origin: self.origin,
                                token: candidates.get_n(),
                                examined: self.examined + 1,
                            };
                            None
                        },
                    }
                }
            },
        }
    }

    /// Steps through the search until it ends or a sign of life is due, and
    /// looks at the cancellation signal `halt` before each step at which
    /// that is due.
    ///
    /// Returns how the search ended, or `None` where a sign of life is due
    /// and the search has gone on since the call.
    pub fn advance(&mut self, halt: &AtomicBool) -> (r: Option<Outcome>)
        ensures
            final(self).on_track(),
            final(self).origin() == old(self).origin(),
            final(self).examined() >= old(self).examined(),
            match r {
                Some(outcome) => final(self).ends_with(outcome),
                None => final(self).is_past(old(self)) && final(self).liveness_is_due(),
            },
    {
        let ghost entry = *self;
        let mut outcome: Option<Outcome> = self.step_polled(halt);
        while outcome.is_none() && !self.liveness_due()
            invariant
                self.on_track(),
                self.origin() == entry.origin(),
                self.examined() >= entry.examined(),
                match outcome {
                    Some(o) => self.ends_with(o),
                    None => self.is_past(&entry),
                },
            decreases
                    (if outcome is Some {
                        0
                    } else {
                        remaining(self.token()) + 1
                    }),
        {
            outcome = self.step_polled(halt);
        }
        outcome
    }

    /// One step, before which the cancellation signal is looked at if that
    /// is due.
    fn step_polled(&mut self, halt: &AtomicBool) -> (r: Option<Outcome>)
        ensures
            final(self).on_track(),
            final(self).origin() == old(self).origin(),
            final(self).examined() >= old(self).examined(),
            match r {
                Some(outcome) => final(self).is_at(old(self)) && final(self).ends_with(outcome),
                None => final(self).examined() == old(self).examined() + 1 && remaining(
                    final(self).token(),
                ) < remaining(old(self).token()),
            },
    {
        let cancelled = self.poll_due() && halt.load(Ordering::SeqCst);
        self.step(cancelled)
    }
}

/// Where the first winner of a search stands before the next candidate at
/// which looking at the signal is due, a call of `advance` finds it,
/// whatever the signal: `after` and `r` are what a call that began at
/// `before` may leave and return, and `k` is the number of the winner among
/// the candidates of the search.
pub proof fn lemma_advance_finds(
    before: SearchDriver,
    after: SearchDriver,
    r: Option<Outcome>,
    k: nat,
)
    requires
        before.on_track(),
        after.on_track(),
        after.origin() == before.origin(),
        after.examined() >= before.examined(),
        match r {
            Some(outcome) => after.ends_with(outcome),
            None => after.is_past(&before) && after.liveness_is_due(),
        },
        before.examined() <= k,
        forall|j: int| before.examined() <= j <= k ==> #[trigger] (j % 4096) != 0,
        none_wins(before.origin() as int, k),
        token_after(before.origin() as int, k) <= HIGH_ALPHABET,
        is_winner(token_after(before.origin() as int, k)),
    ensures
        after.examined() == k,
        r matches Some(Outcome::Found { candidate, decoding }) && candidate@ == spec_render(
            token_after(before.origin() as int, k),
        ) && decodings(candidate@) == Set::<Seq<char>>::empty().insert(decoding@),
{
    let origin = before.origin() as int;
    let reached = after.examined() as nat;
    if reached > k {
        assert(token_after(origin, k) <= HIGH_ALPHABET && !is_winner(token_after(origin, k)));
    }
    assert((reached as int) % 4096 != 0);
    assert(reached % 1048576 == 0 ==> reached % 4096 == 0) by {
        if reached % 1048576 == 0 {
            vstd::arithmetic::div_mod::lemma_fundamental_div_mod(reached as int, 1048576);
            vstd::arithmetic::div_mod::lemma_mod_multiples_basic(
                256 * ((reached as int) / 1048576),
                4096,
            );
        }
    }
    lemma_token_after_ascends(origin, reached, k);
    match r {
        Some(Outcome::Found { candidate, decoding }) => {
            assert(is_winner(after.token() as int));
            if reached < k {
                assert(token_after(origin, reached) <= HIGH_ALPHABET && !is_winner(
                    token_after(origin, reached),
                ));
            }
        },
        _ => {},
    }
}

/// How far `token` is from the end of the range of tokens.
pub open spec fn remaining(token: i128) -> int {
    if token > HIGH_ALPHABET {
        0
    } else {
        HIGH_ALPHABET - token + 1
    }
}

} // verus!
