//! Random choices: the hidden word of a trial is drawn from the word list.

use rand::Rng;
use vstd::prelude::*;
use crate::words::word_views;

verus! {

/// The handle of `rand` on the random number generator of the current
/// thread. Nothing is known of what it holds.
#[verifier::external_type_specification]
#[verifier::external_body]
pub struct ExThreadRng(rand::rngs::ThreadRng);

/// `rand::thread_rng` hands out the generator of the current thread. Nothing
/// is claimed of it. It panics where the operating system gives the
/// generator no seed.
pub assume_specification[ rand::thread_rng ]() -> (rng: rand::rngs::ThreadRng)
;

/// A number below `bound`, drawn by `Rng::gen_range` from the range that
/// starts at 0 and ends before `bound`. The claim is only that the number
/// lies in that range; `gen_range` panics on an empty range, so `bound` must
/// not be 0.
#[verifier::external_body]
fn random_below(rng: &mut rand::rngs::ThreadRng, bound: usize) -> (n: usize)
    requires
        bound > 0,
    ensures
        n < bound,
{
    rng.gen_range(0..bound)
}

/// The word at place `index` of the list.
pub fn pick_word(words: &Vec<String>, index: usize) -> (word: String)
    requires
        index < words@.len(),
    ensures
        word@ == words@[index as int]@,
{
    words[index].clone()
}

/// Draws a word from the list at random. Whatever the draw, the result is
/// one of the words of the list.
pub fn get_random_word(words: &Vec<String>) -> (word: String)
    requires
        words@.len() > 0,
    ensures
        word_views(words@).contains(word@),
{
    let mut rng = rand::thread_rng();
    let random_index = random_below(&mut rng, words.len());
    let word = pick_word(words, random_index);
    assert(word_views(words@)[random_index as int] == word@);
    word
}

} // verus!
