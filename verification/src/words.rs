//! Words of the puzzle, and where a letter stands in one.

use vstd::prelude::*;
use crate::alphabet::{char_is_letter, is_letter};

verus! {

/// Number of letters in a word.
pub const WORD_LEN: usize = 5;

/// A word of the puzzle: exactly five letters of the alphabet.
pub open spec fn valid_word(word: Seq<char>) -> bool {
    &&& word.len() == WORD_LEN
    &&& forall|i: int| 0 <= i < word.len() ==> is_letter(#[trigger] word[i])
}

/// The words of a list, each as the sequence of its characters.
pub open spec fn word_views(words: Seq<String>) -> Seq<Seq<char>> {
    Seq::new(words.len(), |i: int| words[i]@)
}

/// Every word of the list is a word of the puzzle.
pub open spec fn valid_words(words: Seq<Seq<char>>) -> bool {
    forall|i: int| 0 <= i < words.len() ==> valid_word(#[trigger] words[i])
}

/// The positions below `n` at which `word` holds `c`, in increasing order.
pub open spec fn positions_below(word: Seq<char>, c: char, n: int) -> Seq<usize>
    decreases n,
{
    if n <= 0 {
        Seq::empty()
    } else if word[n - 1] == c {
        positions_below(word, c, n - 1).push((n - 1) as usize)
    } else {
        positions_below(word, c, n - 1)
    }
}

/// The positions at which `word` holds `c`, in increasing order.
pub open spec fn positions_of(word: Seq<char>, c: char) -> Seq<usize> {
    positions_below(word, c, word.len() as int)
}

/// How many times `word` holds `c`.
pub open spec fn occurrences(word: Seq<char>, c: char) -> nat {
    positions_of(word, c).len()
}

/// `positions_below` lists exactly the positions below `n` that hold `c`,
/// and no more than `n` of them.
pub proof fn lemma_positions_below(word: Seq<char>, c: char, n: int)
    requires
        0 <= n <= word.len(),
        word.len() <= usize::MAX,
    ensures
        positions_below(word, c, n).len() <= n,
        forall|j: int|
            0 <= j < n && word[j] == c ==> positions_below(word, c, n).contains(j as usize),
        forall|k: int|
            0 <= k < positions_below(word, c, n).len() ==> {
                let p = #[trigger] positions_below(word, c, n)[k];
                p < n && word[p as int] == c
            },
    decreases n,
{
    if n > 0 {
        lemma_positions_below(word, c, n - 1);
        let shorter = positions_below(word, c, n - 1);
        let longer = positions_below(word, c, n);
        if word[n - 1] == c {
            assert(longer[shorter.len() as int] == (n - 1) as usize);
            assert forall|j: int| 0 <= j < n && word[j] == c implies longer.contains(
                j as usize,
            ) by {
                if j < n - 1 {
                    let k = choose|k: int| 0 <= k < shorter.len() && shorter[k] == j as usize;
                    assert(longer[k] == j as usize);
                }
            }
        }
    }
}

/// A letter occurs in a word exactly when it stands at some position of it.
pub proof fn lemma_occurrences(word: Seq<char>, c: char)
    requires
        word.len() <= usize::MAX,
    ensures
        occurrences(word, c) <= word.len(),
        occurrences(word, c) > 0 <==> word.contains(c),
        forall|i: int|
            0 <= i < word.len() ==> (positions_of(word, c).contains(i as usize) <==> word[i] == c),
        forall|k: int|
            0 <= k < positions_of(word, c).len() ==> #[trigger] positions_of(word, c)[k]
                < word.len(),
{
    lemma_positions_below(word, c, word.len() as int);
    let ps = positions_of(word, c);
    if word.contains(c) {
        let i = choose|i: int| 0 <= i < word.len() && word[i] == c;
        assert(ps.contains(i as usize));
    }
    if ps.len() > 0 {
        assert(word[ps[0] as int] == c);
    }
    assert forall|i: int| 0 <= i < word.len() && ps.contains(i as usize) implies word[i] == c by {
        let k = choose|k: int| 0 <= k < ps.len() && ps[k] == i as usize;
        assert(word[ps[k] as int] == c);
    }
}

/// The character at position `i` of `word`.
pub fn char_at(word: &String, i: usize) -> (c: char)
    requires
        i < word@.len(),
    ensures
        c == word@[i as int],
{
    word.as_str().get_char(i)
}

/// How many times `word` holds `c`.
pub fn count_letter(word: &String, c: char) -> (n: usize)
    requires
        word@.len() == WORD_LEN,
    ensures
        n == occurrences(word@, c),
        n <= WORD_LEN,
{
    let mut n: usize = 0;
    let mut i: usize = 0;
    while i < WORD_LEN
        invariant
            i <= WORD_LEN,
            word@.len() == WORD_LEN,
            n == positions_below(word@, c, i as int).len(),
            n <= i,
        decreases WORD_LEN - i,
    {
        if char_at(word, i) == c {
            n += 1;
        }
        i += 1;
    }
    n
}

/// Tells whether `word` is a word of the puzzle.
pub fn is_valid_word(word: &String) -> (b: bool)
    ensures
        b == valid_word(word@),
{
    if word.as_str().unicode_len() != WORD_LEN {
        return false;
    }
    let mut i: usize = 0;
    while i < WORD_LEN
        invariant
            i <= WORD_LEN,
            word@.len() == WORD_LEN,
            forall|j: int| 0 <= j < i ==> is_letter(#[trigger] word@[j]),
        decreases WORD_LEN - i,
    {
        if !char_is_letter(char_at(word, i)) {
            return false;
        }
        i += 1;
    }
    true
}

/// Why a word list cannot be played with.
#[derive(Clone, Copy, Debug, PartialEq, Eq, Structural)]
pub enum WordListError {
    /// The list holds no word.
    Empty,
    /// The word at `index` is not made of exactly five letters of the
    /// alphabet; every word before it is.
    Malformed { index: usize },
}

/// Checks a word list as it is loaded: it must hold at least one word, and
/// only words of five letters of the alphabet. The error names the first
/// word that is not one.
pub fn validate_words(words: &Vec<String>) -> (r: Result<(), WordListError>)
    ensures
        r is Ok <==> words@.len() > 0 && valid_words(word_views(words@)),
        r == Err::<(), WordListError>(WordListError::Empty) <==> words@.len() == 0,
        forall|index: usize|
            r == Err::<(), WordListError>(WordListError::Malformed { index }) <==> {
                &&& index < words@.len()
                &&& !valid_word(words@[index as int]@)
                &&& forall|j: int| 0 <= j < index ==> valid_word(#[trigger] words@[j]@)
            },
{
    if words.len() == 0 {
        return Err(WordListError::Empty);
    }
    let mut i: usize = 0;
    while i < words.len()
        invariant
            i <= words@.len(),
            words@.len() > 0,
            forall|j: int| 0 <= j < i ==> valid_word(#[trigger] words@[j]@),
        decreases words@.len() - i,
    {
        if !is_valid_word(&words[i]) {
            assert forall|index: usize|
                {
                    &&& index < words@.len()
                    &&& !valid_word(words@[index as int]@)
                    &&& forall|j: int| 0 <= j < index ==> valid_word(#[trigger] words@[j]@)
                } implies index == i by {
                if index > i {
                    assert(valid_word(words@[i as int]@));
                }
            }
            assert(!valid_word(word_views(words@)[i as int]));
            return Err(WordListError::Malformed { index: i });
        }
        i += 1;
    }
    assert forall|index: usize|
        !({
            &&& index < words@.len()
            &&& !valid_word(words@[index as int]@)
            &&& forall|j: int| 0 <= j < index ==> valid_word(#[trigger] words@[j]@)
        }) by {}
    Ok(())
}

} // verus!
