//! A solver for the five-letter word-guessing puzzle: it keeps what the
//! feedback on each guess has shown about every letter, prunes the list of
//! candidate words accordingly and ranks the survivors by how common their
//! letters are at each position.

pub mod alphabet;
pub mod words;
pub mod letters;
pub mod target;
pub mod feedback;
pub mod filter;
pub mod knowledge;
pub mod frequency;
pub mod ranking;
pub mod random;
pub mod trial;

pub use crate::feedback::compare;
pub use crate::filter::filter_words;
pub use crate::frequency::make_probabilities;
pub use crate::letters::{get_letters, LetterInfo};
pub use crate::random::get_random_word;
pub use crate::ranking::{grab_best_word, valid_word_prob};
pub use crate::target::final_info;
