use smorse::puzzles::{
    absent_sequences, balanced_count, balanced_words, contains_window, first_dash_run,
    has_alphabet_counts, has_dash_run, is_palindrome, n2s, palindrome_words,
    same_counts_as_alphabet, sequence_with_count, symbol_totals,
};
use smorse::smorse;

fn list(words: &[&str]) -> Vec<String> {
    words.iter().map(|w| w.to_string()).collect()
}

#[test]
fn text_of_a_number() {
    assert_eq!(n2s(0), "................");
    assert_eq!(n2s(5), ".............-.-");
    assert_eq!(n2s(0x8000), "-...............");
    assert_eq!(n2s(u16::MAX), "----------------");
    assert_eq!(n2s(0x1234), "...-..-...--.-..");
}

#[test]
fn windows() {
    assert!(contains_window(b"..--..", b"--"));
    assert!(contains_window(b"..--..", b"..--.."));
    assert!(contains_window(b"..--..", b"-.."));
    assert!(!contains_window(b"..--..", b"---"));
    assert!(!contains_window(b"..", b"..."));
    assert!(contains_window(b"..", b""));
    assert!(contains_window(b"", b""));
}

#[test]
fn fifteen_dashes_in_a_row() {
    // o is three dashes
    assert!(has_dash_run("ooooo"));
    assert!(has_dash_run("aoooooe"));
    assert!(!has_dash_run("oooo"));
    assert!(!has_dash_run("ooeooo"));
    assert!(has_dash_run("tmoooo"));
    assert!(!has_dash_run("tmooot"));
    assert_eq!(first_dash_run(&list(&["abc", "ooooo", "bottommost", "ooooo"])), Some(1));
    assert_eq!(first_dash_run(&list(&["abc", "oooo"])), None);
    assert_eq!(first_dash_run(&list(&[])), None);
}

#[test]
fn palindromes() {
    assert!(is_palindrome("sos"));
    assert!(is_palindrome(""));
    assert!(is_palindrome("e"));
    assert!(is_palindrome("an"));
    assert!(!is_palindrome("a"));
    assert!(!is_palindrome("daily"));
    let thirteen = "eeeeeeeeeeeee";
    assert_eq!(thirteen.len(), 13);
    assert_eq!(
        palindrome_words(&list(&["sos", thirteen, "aaaaaaaaaaaaa", "anananananana", thirteen])),
        vec![1, 4]
    );
}

#[test]
fn dots_and_dashes_in_balance() {
    // a is one dot and one dash
    assert_eq!(balanced_count("a"), Some(1));
    assert_eq!(balanced_count("an"), Some(2));
    assert_eq!(balanced_count("sos"), None);
    assert_eq!(balanced_count("e"), None);
    assert_eq!(balanced_count("t"), None);
    assert_eq!(balanced_count(""), None);
    assert_eq!(balanced_count("os"), Some(3));
    assert_eq!(balanced_count("sot"), None);
    let word = "a".repeat(21);
    assert_eq!(balanced_count(&word), Some(21));
    assert_eq!(
        balanced_words(&list(&[&word, "an", &"e".repeat(21), &"n".repeat(21), &"a".repeat(20)])),
        vec![0, 3]
    );
}

#[test]
fn symbols_are_counted_over_all_words() {
    let mut totals = symbol_totals(&list(&["sos", "a", "", "tt"])).unwrap();
    totals.sort();
    assert_eq!(totals, vec![(b'-', 6), (b'.', 7)]);
    let mut totals = symbol_totals(&list(&["ee", "s"])).unwrap();
    totals.sort();
    assert_eq!(totals, vec![(b'.', 5)]);
    assert_eq!(symbol_totals(&list(&[])), Some(vec![]));
    assert_eq!(symbol_totals(&list(&["", "!"])), Some(vec![]));
}

#[test]
fn counts_of_the_alphabet() {
    let code = smorse("abcdefghijklmnopqrstuvwxyz");
    assert!(has_alphabet_counts(&code));
    assert!(has_alphabet_counts(&format!("  {}\n", code)));
    assert!(has_alphabet_counts(&smorse("wirnbfzehatqlojpgcvusyxkmd")));
    assert!(has_alphabet_counts(&format!("{}{}", "-".repeat(38), ".".repeat(44))));
    assert!(!has_alphabet_counts(&code[1..]));
    assert!(!has_alphabet_counts(&format!("{}.", code)));
    assert!(!has_alphabet_counts(&format!("{} .", &code[..81])));
    assert!(!has_alphabet_counts(""));
    assert!(same_counts_as_alphabet(&code));
    assert!(same_counts_as_alphabet(&format!("{}{}", ".".repeat(44), "-".repeat(38))));
    assert!(!same_counts_as_alphabet(&format!("{}\n", code)));
    assert!(!same_counts_as_alphabet(&format!("{}{}", ".".repeat(43), "-".repeat(39))));
    assert!(!same_counts_as_alphabet(&format!("{}{}", ".".repeat(44), "-".repeat(37))));
    assert!(!same_counts_as_alphabet(""));
}

#[test]
fn sequence_of_several_words() {
    // bits and three have the same encoding
    let words = list(&["bits", "three", "sos", "a", "daily"]);
    assert_eq!(sequence_with_count(&words, 2).as_deref(), Some("-.....-..."));
    let single = sequence_with_count(&words, 1).unwrap();
    assert!(["...---...", ".-", "-...-...-..-.--"].contains(&single.as_str()));
    assert_eq!(sequence_with_count(&list(&["a", "et", "sos"]), 2).as_deref(), Some(".-"));
    assert_eq!(sequence_with_count(&words, 3), None);
    assert_eq!(sequence_with_count(&words, 0), None);
    assert_eq!(sequence_with_count(&list(&[]), 1), None);
}

#[test]
fn sequences_that_stand_in_no_encoding() {
    let all = absent_sequences(&list(&[]));
    assert_eq!(all.len(), 8192);
    assert_eq!(all[0], ".............");
    assert_eq!(all[5], "..........-.-");
    assert_eq!(all[8191], "-------------");
    // thirteen dots, and what fourteen dots then a dash hold
    let some = absent_sequences(&list(&["hhhse", "hhheet"]));
    assert_eq!(some.len(), 8190);
    assert_eq!(some[0], "...........-.");
    assert_eq!(some[1], "...........--");
    assert!(!some.contains(&"............-".to_string()));
    assert!(!some.contains(&".............".to_string()));
    let fewer = absent_sequences(&list(&["hhhset", "oooot"]));
    assert_eq!(fewer.len(), 8189);
    assert_eq!(fewer[0], "...........-.");
    assert_eq!(fewer[8188], "------------.");
}
