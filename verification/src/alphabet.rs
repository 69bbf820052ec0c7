//! The fixed alphabet of the puzzle.

use vstd::prelude::*;

verus! {

/// Number of letters in the alphabet.
pub const ALPHABET_LEN: usize = 26;

/// A letter of the alphabet: one of `'a'` to `'z'`.
pub open spec fn is_letter(c: char) -> bool {
    'a' <= c && c <= 'z'
}

/// The place of a letter in the alphabet, `'a'` being 0.
pub open spec fn letter_number(c: char) -> int {
    c as int - 'a' as int
}

/// The letter at a place of the alphabet.
pub open spec fn letter_at(n: int) -> char {
    (n + 'a' as int) as char
}

/// Each letter is the letter at its own place, and the places of the letters
/// are the numbers below 26.
pub proof fn lemma_letter_places(c: char)
    requires
        is_letter(c),
    ensures
        0 <= letter_number(c) < ALPHABET_LEN,
        letter_at(letter_number(c)) == c,
{
    assert(letter_number(c) + 'a' as int == c as int);
    assert((c as int) as char == c);
}

/// The letter at each place below 26 is a letter of the alphabet, and stands
/// at that place.
pub proof fn lemma_place_letters(n: int)
    requires
        0 <= n < ALPHABET_LEN,
    ensures
        is_letter(letter_at(n)),
        letter_number(letter_at(n)) == n,
{
    assert(((n + 'a' as int) as char) as int == n + 'a' as int);
}

/// Tells whether `c` is a letter of the alphabet.
pub fn char_is_letter(c: char) -> (b: bool)
    ensures
        b == is_letter(c),
{
    'a' <= c && c <= 'z'
}

/// The place of the letter `c` in the alphabet.
pub fn letter_index(c: char) -> (n: usize)
    requires
        is_letter(c),
    ensures
        n == letter_number(c),
        n < ALPHABET_LEN,
{
    (c as u32 - 'a' as u32) as usize
}

/// The letter at place `n` of the alphabet.
pub fn index_letter(n: usize) -> (c: char)
    requires
        n < ALPHABET_LEN,
    ensures
        c == letter_at(n as int),
        is_letter(c),
        letter_number(c) == n,
{
    (n as u8 + 'a' as u8) as char
}

} // verus!
