use smorse::{morse, smalpha, smalpha_all, smorse, unique_decoding};
use std::collections::HashSet;

const FIXTURE: &str =
    "......-..--...---.-....---...--....--.-..---.....---.-.---..---.-....--.-.---.-.--";

const CONTAINER: &str =
    ".--...-.-.-.....-.--........----.-.-..---.---.--.--.-.-....-..-...-.---..--.----..";

const ALPHABET: &str = "abcdefghijklmnopqrstuvwxyz";

fn check_result(input: &str, result: &str) {
    assert_eq!(result.len(), 26);
    assert_eq!(
        result.chars().collect::<HashSet<_>>(),
        (b'a'..=b'z').map(char::from).collect::<HashSet<_>>()
    );
    assert_eq!(smorse(result), input);
}

#[test]
fn test_a() {
    assert_eq!(morse('a'), ".-");
}

#[test]
fn test_b() {
    assert_eq!(morse('b'), "-...");
}

#[test]
fn test_sos() {
    assert_eq!(smorse("sos"), "...---...");
}

#[test]
fn test_daily() {
    assert_eq!(smorse("daily"), "-...-...-..-.--");
}

#[test]
fn test_programmer() {
    assert_eq!(smorse("programmer"), ".--..-.-----..-..-----..-.");
}

#[test]
fn test_bits() {
    assert_eq!(smorse("bits"), "-.....-...");
}

#[test]
fn test_three() {
    assert_eq!(smorse("three"), "-.....-...");
}

#[test]
fn test_smalpha() {
    let result = smalpha(FIXTURE);
    assert!(result.is_some());
    check_result(FIXTURE, &result.unwrap());
}

#[test]
fn test_smalpha_all() {
    let result = smalpha_all(FIXTURE).next();
    assert!(result.is_some());
    check_result(FIXTURE, &result.unwrap());
}

#[test]
fn test_smalpha_compare() {
    let r1 = smalpha(FIXTURE);
    let r2 = smalpha_all(FIXTURE).next();
    assert_eq!(r1, r2);
}

#[test]
fn test_smalpha_state() {
    let mut search = smalpha_all(FIXTURE);
    let results = std::iter::from_fn(|| search.next()).take(2).collect::<Vec<_>>();
    assert_eq!(results.len(), 2);
    assert_ne!(results[0], results[1]);
}

#[test]
fn test_smalpha_container() {
    let mut search = smalpha_all(CONTAINER);
    let results = std::iter::from_fn(|| search.next()).collect::<Vec<_>>();
    println!("results:");
    for result in &results {
        println!("  {}", result);
    }
    for result in &results {
        check_result(CONTAINER, result);
    }
    assert!(results.iter().any(|r| r == "wirnbfzehatqlojpgcvusyxkmd"));
}

#[test]
fn test_smalpha_count() {
    let mut search = smalpha_all(FIXTURE);
    assert_eq!(std::iter::from_fn(|| search.next()).count(), 41);
}

#[test]
fn morse_of_other_characters_is_empty() {
    assert_eq!(morse('A'), "");
    assert_eq!(morse(' '), "");
    assert_eq!(morse('é'), "");
    assert_eq!(morse('z'), "--..");
    assert_eq!(smorse("a b!"), ".--...");
    assert_eq!(smorse(""), "");
}

#[test]
fn letters_have_their_names() {
    assert_eq!(smorse::code::letter_name(0), "a");
    assert_eq!(smorse::code::letter_name(12), "m");
    assert_eq!(smorse::code::letter_name(25), "z");
    let spelled: String = (0..26).map(smorse::code::letter_name).collect();
    assert_eq!(spelled, ALPHABET);
}

#[test]
fn fixtures_are_encodings() {
    assert_eq!(smorse("wirnbfzehatqlojpgcvusyxkmd"), CONTAINER);
    assert_eq!(FIXTURE.len(), 82);
    assert_eq!(CONTAINER.len(), 82);
    let first = smalpha(FIXTURE).unwrap();
    assert_eq!(smorse(&first), FIXTURE);
}

#[test]
fn codewords_follow_the_table() {
    assert_eq!(smorse::codeword(0), ".-");
    assert_eq!(smorse::codeword(4), ".");
    assert_eq!(smorse::codeword(19), "-");
    assert_eq!(smorse::codeword(25), "--..");
    assert_eq!(smorse(ALPHABET).len(), 82);
    assert_eq!(smorse(ALPHABET).matches('.').count(), 44);
}

#[test]
fn decoding_an_encoding_gives_the_permutation_back() {
    for permutation in [ALPHABET, "wirnbfzehatqlojpgcvusyxkmd", "zyxwvutsrqponmlkjihgfedcba"] {
        let code = smorse(permutation);
        let first = smalpha(&code).expect("an encoding has a decoding");
        check_result(&code, &first);
        assert!(first.as_str() <= permutation);
        let mut search = smalpha_all(&code);
        let results = search.take(usize::MAX);
        assert!(results.iter().any(|r| r == permutation));
    }
}

#[test]
fn enumeration_is_ascending_without_repeats() {
    let mut search = smalpha_all(FIXTURE);
    let results = search.take(100);
    assert_eq!(results.len(), 41);
    for pair in results.windows(2) {
        assert!(pair[0] < pair[1]);
    }
    assert_eq!(results.iter().collect::<HashSet<_>>().len(), 41);
    for result in &results {
        check_result(FIXTURE, result);
    }
    assert_eq!(smalpha(FIXTURE).as_ref(), results.first());
    assert_eq!(search.next(), None);
    assert_eq!(search.next(), None);
    assert!(search.take(5).is_empty());
}

/// Counts the decodings of `input` by trying every letter at every place.
fn count_by_brute_force(input: &[u8], used: &mut [bool; 26]) -> usize {
    if used.iter().all(|u| *u) {
        return if input.is_empty() { 1 } else { 0 };
    }
    let mut count = 0;
    for letter in 0..26 {
        let code = smorse::codeword(letter as u8).as_bytes();
        if !used[letter] && input.starts_with(code) {
            used[letter] = true;
            count += count_by_brute_force(&input[code.len()..], used);
            used[letter] = false;
        }
    }
    count
}

#[test]
fn enumeration_agrees_with_a_count_by_brute_force() {
    for input in [FIXTURE, CONTAINER] {
        let expected = count_by_brute_force(input.as_bytes(), &mut [false; 26]);
        let mut search = smalpha_all(input);
        let results = search.take(usize::MAX);
        assert_eq!(results.len(), expected);
        assert_eq!(results.iter().collect::<HashSet<_>>().len(), expected);
    }
}

#[test]
fn take_stops_at_the_limit_and_goes_on_from_there() {
    let mut whole = smalpha_all(FIXTURE);
    let all = whole.take(41);
    let mut search = smalpha_all(FIXTURE);
    assert!(search.take(0).is_empty());
    let head = search.take(3);
    assert_eq!(head, all[..3].to_vec());
    assert_eq!(search.next().as_ref(), Some(&all[3]));
    let rest = search.take(usize::MAX);
    assert_eq!(rest, all[4..].to_vec());
}

#[test]
fn inputs_without_a_decoding() {
    assert_eq!(smalpha(""), None);
    assert_eq!(smalpha("."), None);
    assert_eq!(smalpha_all("").next(), None);
    // a symbol that is neither dot nor dash
    let broken = FIXTURE.replacen('-', "x", 1);
    assert_eq!(smalpha(&broken), None);
    assert_eq!(smalpha_all(&broken).next(), None);
    // input left over when the letters are used up
    let longer = format!("{}.", smorse(ALPHABET));
    assert_eq!(smalpha(&longer), None);
    assert_eq!(smalpha_all(&longer).next(), None);
    // letters left over when the input is used up
    let shorter = &FIXTURE[..81];
    assert_eq!(smalpha(shorter), None);
    assert_eq!(smalpha_all(shorter).next(), None);
    // not text in ASCII
    let wide = format!("{}é", &FIXTURE[..80]);
    assert_eq!(smalpha(&wide), None);
}

#[test]
fn probe_for_a_single_decoding() {
    // more than one decoding
    assert_eq!(unique_decoding(FIXTURE), None);
    assert_eq!(unique_decoding(CONTAINER), None);
    // none at all
    assert_eq!(unique_decoding(""), None);
    assert_eq!(unique_decoding(&FIXTURE[..81]), None);
}
