use smorse::input_generator::{next_permutation, InputGenerator, HIGH_ALPHABET, LOW_ALPHABET};
use smorse::search::{Outcome, SearchDriver};
use smorse::unique_decoding;
use std::sync::atomic::AtomicBool;

#[test]
fn cancelled_before_the_first_candidate() {
    let mut driver = SearchDriver::new(None);
    assert!(driver.poll_due());
    assert!(driver.liveness_due());
    assert_eq!(
        driver.step(true),
        Some(Outcome::Cancelled { checkpoint: LOW_ALPHABET, examined: 0 })
    );
    let start = LOW_ALPHABET + 12345;
    let mut driver = SearchDriver::new(Some(start));
    assert_eq!(driver.step(true), Some(Outcome::Cancelled { checkpoint: start, examined: 0 }));
    // a start outside the range is the lowest token
    let mut driver = SearchDriver::new(Some(-5));
    assert_eq!(
        driver.step(true),
        Some(Outcome::Cancelled { checkpoint: LOW_ALPHABET, examined: 0 })
    );
}

#[test]
fn signal_set_before_the_run() {
    let halt = AtomicBool::new(true);
    let mut driver = SearchDriver::new(None);
    assert_eq!(
        driver.advance(&halt),
        Some(Outcome::Cancelled { checkpoint: LOW_ALPHABET, examined: 0 })
    );
    let start = next_permutation(next_permutation(LOW_ALPHABET));
    let mut driver = SearchDriver::new(Some(start));
    assert_eq!(
        driver.advance(&halt),
        Some(Outcome::Cancelled { checkpoint: start, examined: 0 })
    );
}

#[test]
fn signal_counts_only_where_looking_is_due() {
    let mut driver = SearchDriver::new(None);
    let mut token = LOW_ALPHABET;
    assert_eq!(driver.step(false), expected_step(token));
    token = next_permutation(token);
    for _ in 0..20 {
        assert!(!driver.poll_due());
        assert!(!driver.liveness_due());
        // the signal is set, but looking at it is not due
        assert_eq!(driver.step(true), expected_step(token));
        token = next_permutation(token);
    }
}

fn expected_step(token: i128) -> Option<Outcome> {
    let candidate = InputGenerator::start_at(token).current_input();
    unique_decoding(&candidate).map(|decoding| Outcome::Found { candidate, decoding })
}

#[test]
fn search_ends_above_the_highest_token() {
    let mut driver = SearchDriver::new(Some(HIGH_ALPHABET));
    assert_eq!(driver.step(false), expected_step(HIGH_ALPHABET));
    assert_eq!(driver.step(false), Some(Outcome::Exhausted));
    assert_eq!(driver.step(true), Some(Outcome::Exhausted));
    let halt = AtomicBool::new(false);
    assert_eq!(driver.advance(&halt), Some(Outcome::Exhausted));
}

#[test]
fn resumed_search_goes_on_where_it_stopped() {
    // an uninterrupted search
    let mut whole = SearchDriver::new(None);
    let mut tokens = Vec::new();
    let mut token = LOW_ALPHABET;
    for _ in 0..64 {
        tokens.push(token);
        assert_eq!(whole.step(false), None);
        token = next_permutation(token);
    }
    // the same search in pieces, each from the checkpoint of the one before
    let mut checkpoint = LOW_ALPHABET;
    let mut seen = Vec::new();
    for piece in 0..4 {
        let mut driver = SearchDriver::new(Some(checkpoint));
        assert_eq!(
            driver.step(true),
            Some(Outcome::Cancelled { checkpoint, examined: 0 })
        );
        let mut driver = SearchDriver::new(Some(checkpoint));
        for _ in 0..16 {
            seen.push(checkpoint);
            assert_eq!(driver.step(false), None);
            checkpoint = next_permutation(checkpoint);
        }
        assert_eq!(seen.len(), 16 * (piece + 1));
    }
    assert_eq!(seen, tokens);
}
