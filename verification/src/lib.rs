//! Squashed Morse code: encoding words, decoding squashed strings back into
//! alphabet permutations, and searching for uniquely decodable strings.
//!
//! - [`code`]: the code table and the squashed encoding of a word.
//! - [`decoding`], [`arrangement`], [`lex`], [`shape`]: what a decoding is,
//!   the order in which decodings come, and what can have one.
//! - [`decoder`]: the backtracking search for decodings, single or resumable.
//! - [`bits`], [`input_generator`]: the candidates of the search, as numbers
//!   with a fixed count of set bits.
//! - [`search`]: the search for the first candidate with a single decoding,
//!   which can be cancelled and taken up again.
//! - [`puzzles`], [`tally`]: questions about the encodings of a word list.
//! - [`necklace`]: strings up to rotation.

pub mod arrangement;
pub mod bits;
pub mod code;
pub mod decoder;
pub mod decoding;
pub mod input_generator;
pub mod lex;
pub mod necklace;
pub mod puzzles;
pub mod search;
pub mod shape;
pub mod tally;

pub use code::{codeword, morse, smorse};
pub use decoder::{smalpha, smalpha_all, unique_decoding, AlphaSearch};
pub use necklace::{matches_in, StringNecklace};
