use smorse::input_generator::{
    next_permutation, InputGenerator, HIGH_ALPHABET, INPUT_SIZE, LOW_ALPHABET, ON_BITS,
};

fn render(n: i128) -> String {
    (0..82).rev().map(|i| if n >> i & 1 == 1 { '.' } else { '-' }).collect()
}

#[test]
fn test_permutations() {
    let mut n = LOW_ALPHABET;

    // not all permutations, but a representative sampling
    for _ in 0..1024 {
        assert!(n >= LOW_ALPHABET);
        assert!(n <= HIGH_ALPHABET);
        assert_eq!(n.count_ones(), ON_BITS);

        let next = next_permutation(n);
        assert!(next > n);
        n = next;
    }
}

#[test]
fn test_i2n() {
    for n in 0_i128..1024 {
        assert_eq!(InputGenerator::i2n(&InputGenerator::n2i(n)), n);
    }
}

#[test]
fn token_is_read_back_from_the_current_input() {
    for k in 0_i128..1024 {
        let n = LOW_ALPHABET + k;
        let mut ig = InputGenerator::start_at(n);
        assert_eq!(ig.current_input(), InputGenerator::n2i(n));
        assert_eq!(InputGenerator::i2n(&ig.current_input()), n);
    }
}

#[test]
fn start_outside_the_range_is_the_lowest_token() {
    for n in 0_i128..1024 {
        let mut ig = InputGenerator::start_at(n);
        assert_eq!(ig.get_n(), LOW_ALPHABET);
        assert_eq!(InputGenerator::i2n(&ig.current_input()), LOW_ALPHABET);
    }
    for n in [-1, i128::MIN, LOW_ALPHABET - 1, HIGH_ALPHABET + 1, i128::MAX] {
        assert_eq!(InputGenerator::start_at(n).get_n(), LOW_ALPHABET);
        assert_eq!(InputGenerator::maybe_start_at(Some(n)).get_n(), LOW_ALPHABET);
    }
    for n in [LOW_ALPHABET, LOW_ALPHABET + 1, 1 << 60, HIGH_ALPHABET] {
        assert_eq!(InputGenerator::start_at(n).get_n(), n);
        assert_eq!(InputGenerator::maybe_start_at(Some(n)).get_n(), n);
    }
    assert_eq!(InputGenerator::new().get_n(), LOW_ALPHABET);
    assert_eq!(InputGenerator::maybe_start_at(None).get_n(), LOW_ALPHABET);
}

#[test]
fn token_constants() {
    assert_eq!(INPUT_SIZE, 82);
    assert_eq!(ON_BITS, 44);
    assert_eq!(LOW_ALPHABET, (1 << 44) - 1);
    assert_eq!(HIGH_ALPHABET, LOW_ALPHABET << (INPUT_SIZE - ON_BITS));
    assert_eq!(HIGH_ALPHABET.count_ones(), 44);
}

#[test]
fn next_permutation_takes_the_next_number_with_as_many_bits() {
    let expected = [0b0001_0011, 0b0001_0101, 0b0001_0110, 0b0001_1001, 0b0001_1010, 0b0001_1100, 0b0010_0011];
    for pair in expected.windows(2) {
        assert_eq!(next_permutation(pair[0]), pair[1]);
    }
    assert_eq!(next_permutation(1), 2);
    assert_eq!(next_permutation(0b110), 0b1001);
    assert_eq!(next_permutation(LOW_ALPHABET), 0x17ff_ffff_ffff);
    assert_eq!(next_permutation(HIGH_ALPHABET), (1 << 82) | ((1 << 43) - 1));
    // nothing in between has as many bits
    let mut v: i128 = 0b1011_0000;
    for _ in 0..200 {
        let w = next_permutation(v);
        assert!(((v + 1)..w).all(|x| x.count_ones() != v.count_ones()));
        assert_eq!(w.count_ones(), v.count_ones());
        v = w;
    }
}

#[test]
fn candidates_come_in_ascending_order() {
    let mut ig = InputGenerator::new();
    let first = ig.next().unwrap();
    assert_eq!(first, format!("{}{}", "-".repeat(38), ".".repeat(44)));
    assert_eq!(ig.get_n(), 0x17ff_ffff_ffff);
    let second = ig.next().unwrap();
    assert_eq!(second, format!("{}.-{}", "-".repeat(37), ".".repeat(43)));
    let mut previous = second;
    for _ in 0..1000 {
        let token = ig.get_n();
        let shown = ig.current_input();
        let candidate = ig.next().unwrap();
        assert_eq!(candidate, shown);
        assert_eq!(candidate, render(token));
        assert_eq!(candidate.len(), 82);
        assert_eq!(candidate.matches('.').count(), 44);
        assert!(ig.get_n() > token);
        // a dash sorts before a dot, so the order of the tokens is that of the texts
        assert!(previous < candidate);
        previous = candidate;
    }
}

#[test]
fn generator_ends_above_the_highest_token() {
    let mut ig = InputGenerator::start_at(HIGH_ALPHABET);
    assert_eq!(ig.next(), Some(format!("{}{}", ".".repeat(44), "-".repeat(38))));
    assert!(ig.get_n() > HIGH_ALPHABET);
    let end = ig.get_n();
    assert_eq!(ig.next(), None);
    assert_eq!(ig.next(), None);
    assert_eq!(ig.get_n(), end);
}

#[test]
fn token_of_a_candidate_is_read_from_its_first_82_bytes() {
    for n in [LOW_ALPHABET, HIGH_ALPHABET, 0, 1, (1 << 82) - 1, 0x2_aaaa_aaaa_aaaa_aaaa_aaaa] {
        assert_eq!(InputGenerator::n2i(n), render(n));
        assert_eq!(InputGenerator::i2n(&render(n)), n);
    }
    // bits above the 82 are not shown
    assert_eq!(InputGenerator::n2i((1 << 82) | 5), render(5));
    assert_eq!(InputGenerator::n2i(5), format!("{}.-.", "-".repeat(79)));
    let low = render(LOW_ALPHABET);
    assert_eq!(InputGenerator::i2n(&format!("{}....", low)), LOW_ALPHABET);
    // whatever is no dot counts as a clear bit
    assert_eq!(InputGenerator::i2n(&low.replace('-', "x")), LOW_ALPHABET);
    assert_eq!(InputGenerator::i2n(&"-".repeat(82)), 0);
    assert_eq!(InputGenerator::i2n(&format!("{}.", "-".repeat(81))), 1);
    assert_eq!(InputGenerator::i2n(&format!(".{}", "-".repeat(81))), 1 << 81);
}

#[test]
fn first_tokens_stay_in_range() {
    let mut ig = InputGenerator::new();
    let mut previous = LOW_ALPHABET - 1;
    for _ in 0..1035 {
        let token = ig.get_n();
        assert!(previous < token);
        assert!(LOW_ALPHABET <= token && token <= HIGH_ALPHABET);
        assert_eq!(token.count_ones(), ON_BITS);
        assert!(ig.next().is_some());
        previous = token;
    }
    // the last of them has its two gaps at the bottom of 46 bits
    assert_eq!(previous, (1 << 46) - 4);
    assert_eq!(ig.get_n(), (1 << 46) | ((1 << 43) - 1));
}
