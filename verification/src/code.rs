//! The Morse code table and the squashed encoding of words.

use vstd::prelude::*;
use vstd::string::StringExecFns;

verus! {

/// Number of letters in the alphabet.
pub const ALPHABET_LEN: u8 = 26;

/// The codeword of the letter with index `i`: `a` is 0, `z` is 25.
/// Outside that range the codeword is empty.
pub open spec fn spec_codeword(i: int) -> Seq<char> {
    if i == 0 {
        seq!['.', '-']
    } else if i == 1 {
        seq!['-', '.', '.', '.']
    } else if i == 2 {
        seq!['-', '.', '-', '.']
    } else if i == 3 {
        seq!['-', '.', '.']
    } else if i == 4 {
        seq!['.']
    } else if i == 5 {
        seq!['.', '.', '-', '.']
    } else if i == 6 {
        seq!['-', '-', '.']
    } else if i == 7 {
        seq!['.', '.', '.', '.']
    } else if i == 8 {
        seq!['.', '.']
    } else if i == 9 {
        seq!['.', '-', '-', '-']
    } else if i == 10 {
        seq!['-', '.', '-']
    } else if i == 11 {
        seq!['.', '-', '.', '.']
    } else if i == 12 {
        seq!['-', '-']
    } else if i == 13 {
        seq!['-', '.']
    } else if i == 14 {
        seq!['-', '-', '-']
    } else if i == 15 {
        seq!['.', '-', '-', '.']
    } else if i == 16 {
        seq!['-', '-', '.', '-']
    } else if i == 17 {
        seq!['.', '-', '.']
    } else if i == 18 {
        seq!['.', '.', '.']
    } else if i == 19 {
        seq!['-']
    } else if i == 20 {
        seq!['.', '.', '-']
    } else if i == 21 {
        seq!['.', '.', '.', '-']
    } else if i == 22 {
        seq!['.', '-', '-']
    } else if i == 23 {
        seq!['-', '.', '.', '-']
    } else if i == 24 {
        seq!['-', '.', '-', '-']
    } else if i == 25 {
        seq!['-', '-', '.', '.']
    } else {
        Seq::empty()
    }
}

/// The codeword of a character: that of its letter for `a` to `z`, empty for
/// every other character.
pub open spec fn spec_morse(c: char) -> Seq<char> {
    if 'a' <= c && c <= 'z' {
        spec_codeword(c as int - 'a' as int)
    } else {
        Seq::empty()
    }
}

/// The squashed encoding of a word: the codewords of its characters, one
/// after the other, with nothing between them.
pub open spec fn spec_smorse(s: Seq<char>) -> Seq<char>
    decreases s.len(),
{
    if s.len() == 0 {
        Seq::empty()
    } else {
        spec_smorse(s.drop_last()) + spec_morse(s.last())
    }
}

/// The characters of each text of a list.
pub open spec fn text_views(texts: Seq<String>) -> Seq<Seq<char>> {
    Seq::new(texts.len(), |i: int| texts[i]@)
}

/// Every codeword of a letter has between one and four symbols, each a dot
/// or a dash.
pub proof fn lemma_codeword_shape(i: int)
    requires
        0 <= i < 26,
    ensures
        1 <= spec_codeword(i).len() <= 4,
        forall|k: int|
            0 <= k < spec_codeword(i).len() ==> #[trigger] spec_codeword(i)[k] == '.'
                || spec_codeword(i)[k] == '-',
{
}

/// Every symbol of a squashed encoding is a dot or a dash.
pub proof fn lemma_smorse_symbols(s: Seq<char>)
    ensures
        forall|k: int|
            0 <= k < spec_smorse(s).len() ==> #[trigger] spec_smorse(s)[k] == '.' || spec_smorse(
                s,
            )[k] == '-',
    decreases s.len(),
{
    if s.len() > 0 {
        lemma_smorse_symbols(s.drop_last());
        let c = s.last();
        if 'a' <= c && c <= 'z' {
            lemma_codeword_shape(c as int - 'a' as int);
        }
        let before = spec_smorse(s.drop_last());
        let added = spec_morse(c);
        assert forall|k: int| 0 <= k < spec_smorse(s).len() implies #[trigger] spec_smorse(s)[k]
            == '.' || spec_smorse(s)[k] == '-' by {
            if k < before.len() {
                assert(spec_smorse(s)[k] == before[k]);
            } else {
                assert(spec_smorse(s)[k] == added[k - before.len()]);
            }
        }
    }
}

/// Codeword of the letter with index `letter`.
pub fn codeword(letter: u8) -> (r: &'static str)
    requires
        letter < ALPHABET_LEN,
    ensures
        r@ == spec_codeword(letter as int),
{
    proof {
        reveal_strlit(".-");
        reveal_strlit("-...");
        reveal_strlit("-.-.");
        reveal_strlit("-..");
        reveal_strlit(".");
        reveal_strlit("..-.");
        reveal_strlit("--.");
        reveal_strlit("....");
        reveal_strlit("..");
        reveal_strlit(".---");
        reveal_strlit("-.-");
        reveal_strlit(".-..");
        reveal_strlit("--");
        reveal_strlit("-.");
        reveal_strlit("---");
        reveal_strlit(".--.");
        reveal_strlit("--.-");
        reveal_strlit(".-.");
        reveal_strlit("...");
        reveal_strlit("-");
        reveal_strlit("..-");
        reveal_strlit("...-");
        reveal_strlit(".--");
        reveal_strlit("-..-");
        reveal_strlit("-.--");
        reveal_strlit("--..");
    }
    let r = match letter {
        0 => ".-",
        1 => "-...",
        2 => "-.-.",
        3 => "-..",
        4 => ".",
        5 => "..-.",
        6 => "--.",
        7 => "....",
        8 => "..",
        9 => ".---",
        10 => "-.-",
        11 => ".-..",
        12 => "--",
        13 => "-.",
        14 => "---",
        15 => ".--.",
        16 => "--.-",
        17 => ".-.",
        18 => "...",
        19 => "-",
        20 => "..-",
        21 => "...-",
        22 => ".--",
        23 => "-..-",
        24 => "-.--",
        _ => "--..",
    };
    assert(r@ =~= spec_codeword(letter as int));
    r
}

/// The character of the letter with index `i`: `a` for 0, `z` for 25.
pub open spec fn spec_letter(i: u8) -> char {
    ((i + 97) as u8) as char
}

/// The letter with index `letter`, as a string of one character.
pub fn letter_name(letter: u8) -> (r: &'static str)
    requires
        letter < ALPHABET_LEN,
    ensures
        r@ == seq![spec_letter(letter)],
{
    proof {
        reveal_strlit("a");
        reveal_strlit("b");
        reveal_strlit("c");
        reveal_strlit("d");
        reveal_strlit("e");
        reveal_strlit("f");
        reveal_strlit("g");
        reveal_strlit("h");
        reveal_strlit("i");
        reveal_strlit("j");
        reveal_strlit("k");
        reveal_strlit("l");
        reveal_strlit("m");
        reveal_strlit("n");
        reveal_strlit("o");
        reveal_strlit("p");
        reveal_strlit("q");
        reveal_strlit("r");
        reveal_strlit("s");
        reveal_strlit("t");
        reveal_strlit("u");
        reveal_strlit("v");
        reveal_strlit("w");
        reveal_strlit("x");
        reveal_strlit("y");
        reveal_strlit("z");
    }
    let r = match letter {
        0 => "a",
        1 => "b",
        2 => "c",
        3 => "d",
        4 => "e",
        5 => "f",
        6 => "g",
        7 => "h",
        8 => "i",
        9 => "j",
        10 => "k",
        11 => "l",
        12 => "m",
        13 => "n",
        14 => "o",
        15 => "p",
        16 => "q",
        17 => "r",
        18 => "s",
        19 => "t",
        20 => "u",
        21 => "v",
        22 => "w",
        23 => "x",
        24 => "y",
        _ => "z",
    };
    assert(r@ =~= seq![spec_letter(letter)]);
    r
}

/// Codeword of a character; empty unless the character is a lowercase letter.
pub fn morse(c: char) -> (r: &'static str)
    ensures
        r@ == spec_morse(c),
{
    if 'a' <= c && c <= 'z' {
        codeword((c as u8) - 97)
    } else {
        proof {
            reveal_strlit("");
        }
        let r = "";
        assert(r@ =~= Seq::<char>::empty());
        r
    }
}

/// Squashed Morse encoding of `s`.
pub fn smorse(s: &str) -> (r: String)
    ensures
        r@ == spec_smorse(s@),
{
    let mut out = String::new();
    let it = s.chars();
    for c in iter: it
        invariant
            iter.seq() == s@,
            out@ == spec_smorse(s@.take(iter.index())),
    {
        proof {
            let i = iter.index();
            assert(s@.take(i + 1).drop_last() =~= s@.take(i));
            assert(s@.take(i + 1).last() == c);
        }
        out.append(morse(c));
    }
    assert(s@.take(s@.len() as int) =~= s@);
    out
}

} // verus!
