use smorse::{matches_in, StringNecklace};

fn same(a: &str, b: &str) -> bool {
    let a = StringNecklace::new(a);
    let b = StringNecklace::new(b);
    assert_eq!(a == b, a.same_as(&b));
    a == b
}

#[test]
fn test_examples() {
    assert!(same("nicole", "icolen"));
    assert!(same("nicole", "lenico"));
    assert!(!same("nicole", "coneli"));
    assert!(same("aabaaaaabaab", "aabaabaabaaa"));
    assert!(!same("abc", "cba"));
    assert!(!same("xxyyy", "xxxyy"));
    assert!(!same("xyxxz", "xxyxz"));
    assert!(same("x", "x"));
    assert!(!same("x", "xx"));
    assert!(!same("x", ""));
    assert!(same("", ""));
}

#[test]
fn test_bonus_1() {
    assert_eq!(StringNecklace::new("abc").repeats(), 1);
    assert_eq!(StringNecklace::new("abcabcabc").repeats(), 3);
    assert_eq!(StringNecklace::new("abcabcabcx").repeats(), 1);
    assert_eq!(StringNecklace::new("aaaaaa").repeats(), 6);
    assert_eq!(StringNecklace::new("a").repeats(), 1);
    assert_eq!(StringNecklace::new("").repeats(), 1);
}

#[test]
fn necklace_is_the_least_rotation() {
    assert_eq!(StringNecklace::new("nicole"), StringNecklace::new("coleni"));
    assert_eq!(StringNecklace::new("cab"), StringNecklace::new("abc"));
    assert_eq!(format!("{:?}", StringNecklace::new("cab")), format!("{:?}", StringNecklace::new("abc")));
    assert!(format!("{:?}", StringNecklace::new("cab")).contains("'a', 'b', 'c'"));
    assert_eq!(StringNecklace::new("nicole").len(), 6);
    assert_eq!(StringNecklace::new("").len(), 0);
    assert_eq!(StringNecklace::new("héé").len(), 3);
}

#[test]
fn words_are_counted_by_necklace() {
    let words: Vec<String> =
        ["abc", "bca", "x", "cab", "acb", "x", ""].iter().map(|w| w.to_string()).collect();
    let mut found = matches_in(&words);
    found.sort_by_key(|(necklace, _)| format!("{:?}", necklace));
    let mut expected = vec![
        (StringNecklace::new("abc"), 3),
        (StringNecklace::new("x"), 2),
        (StringNecklace::new("acb"), 1),
        (StringNecklace::new(""), 1),
    ];
    expected.sort_by_key(|(necklace, _)| format!("{:?}", necklace));
    assert_eq!(found, expected);
    assert!(matches_in(&Vec::new()).is_empty());
}
