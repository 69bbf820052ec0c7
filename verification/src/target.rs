//! The hidden word of a trial, with the positions of each of its letters.

use vstd::prelude::*;
use crate::alphabet::{char_is_letter, index_letter, is_letter, letter_at, letter_index, ALPHABET_LEN};
use crate::words::{
    char_at, lemma_occurrences, occurrences, positions_below, positions_of, valid_word, WORD_LEN,
};

verus! {

/// The hidden word of a trial together with, for each letter of the
/// alphabet, the positions at which the word holds it. Its view is the word.
pub struct TargetInfo {
    word: String,
    indices: Vec<Vec<usize>>,
}

impl View for TargetInfo {
    type V = Seq<char>;

    closed spec fn view(&self) -> Seq<char> {
        self.word@
    }
}

/// The positions at which `word` holds `c`, in increasing order.
fn positions_in(word: &String, c: char) -> (positions: Vec<usize>)
    requires
        word@.len() == WORD_LEN,
    ensures
        positions@ == positions_of(word@, c),
{
    let mut positions: Vec<usize> = Vec::new();
    let mut i: usize = 0;
    while i < WORD_LEN
        invariant
            i <= WORD_LEN,
            word@.len() == WORD_LEN,
            positions@ == positions_below(word@, c, i as int),
        decreases WORD_LEN - i,
    {
        if char_at(word, i) == c {
            positions.push(i);
        }
        i += 1;
    }
    positions
}

impl TargetInfo {
    #[verifier::type_invariant]
    spec fn well_formed(self) -> bool {
        &&& valid_word(self.word@)
        &&& self.indices@.len() == ALPHABET_LEN
        &&& forall|n: int|
            0 <= n < ALPHABET_LEN ==> (#[trigger] self.indices@[n])@ == positions_of(
                self.word@,
                letter_at(n),
            )
    }

    /// The hidden word.
    pub fn word(&self) -> (word: &String)
        ensures
            word@ == self@,
            valid_word(self@),
    {
        proof {
            use_type_invariant(self);
        }
        &self.word
    }

    /// The positions at which the hidden word holds the letter `c`, in
    /// increasing order.
    pub fn indices_of(&self, c: char) -> (positions: &Vec<usize>)
        requires
            is_letter(c),
        ensures
            positions@ == positions_of(self@, c),
    {
        proof {
            use_type_invariant(self);
        }
        &self.indices[letter_index(c)]
    }

    /// How many times the hidden word holds `c`.
    pub fn count(&self, c: char) -> (n: usize)
        ensures
            n == occurrences(self@, c),
            n <= WORD_LEN,
    {
        proof {
            use_type_invariant(self);
            lemma_occurrences(self@, c);
        }
        if char_is_letter(c) {
            self.indices[letter_index(c)].len()
        } else {
            assert(!self@.contains(c));
            0
        }
    }

    /// Tells whether the hidden word holds `c`.
    pub fn contains(&self, c: char) -> (b: bool)
        ensures
            b == self@.contains(c),
    {
        proof {
            use_type_invariant(self);
            lemma_occurrences(self@, c);
        }
        self.count(c) > 0
    }

    /// Tells whether the hidden word holds `c` at position `i`.
    pub fn has_at(&self, c: char, i: usize) -> (b: bool)
        ensures
            b == (i < self@.len() && self@[i as int] == c),
    {
        proof {
            use_type_invariant(self);
            lemma_occurrences(self@, c);
        }
        if !char_is_letter(c) {
            return false;
        }
        let positions = self.indices_of(c);
        let mut k: usize = 0;
        while k < positions.len()
            invariant
                k <= positions@.len(),
                positions@ == positions_of(self@, c),
                forall|j: int| 0 <= j < k ==> positions@[j] != i,
            decreases positions@.len() - k,
        {
            if positions[k] == i {
                proof {
                    use_type_invariant(self);
                    lemma_occurrences(self@, c);
                    assert(positions_of(self@, c)[k as int] == i);
                    assert(positions@.contains(i));
                }
                return true;
            }
            k += 1;
        }
        assert(!positions@.contains(i));
        false
    }
}

/// Pairs the hidden word with the positions of each of its letters.
pub fn final_info(final_word: &String) -> (info: TargetInfo)
    requires
        valid_word(final_word@),
    ensures
        info@ == final_word@,
{
    let mut indices: Vec<Vec<usize>> = Vec::new();
    let mut n: usize = 0;
    while n < ALPHABET_LEN
        invariant
            n <= ALPHABET_LEN,
            valid_word(final_word@),
            indices@.len() == n,
            forall|m: int|
                0 <= m < n ==> (#[trigger] indices@[m])@ == positions_of(final_word@, letter_at(m)),
        decreases ALPHABET_LEN - n,
    {
        indices.push(positions_in(final_word, index_letter(n)));
        n += 1;
    }
    TargetInfo { word: final_word.clone(), indices }
}

} // verus!
