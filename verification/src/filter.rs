//! The candidate filter: it keeps the words that agree with everything the
//! feedback has shown so far.

use vstd::prelude::*;
use crate::alphabet::{index_letter, lemma_letter_places, letter_at, ALPHABET_LEN};
use crate::feedback::UNSET;
use crate::letters::{ConstraintStore, LetterFacts, LetterSet, Membership};
use crate::words::{
    char_at, count_letter, lemma_occurrences, occurrences, valid_word, valid_words, word_views,
    WORD_LEN,
};

verus! {

/// Whether a word may hold the letter `c` at position `i`, given the `facts`
/// about `c` and the content `slot` of the guess buffer at `i`.
///
/// Where the slot is set, `c` must be its letter. Where it is not: a letter
/// of unknown membership may stand anywhere, an absent letter nowhere, and a
/// present letter with no confirmed position may not stand at a position
/// excluded for it.
pub open spec fn position_allows(facts: LetterFacts, slot: char, c: char, i: int) -> bool {
    if slot != UNSET {
        c == slot
    } else {
        match facts.membership {
            Membership::Unknown => true,
            Membership::Absent => false,
            Membership::Present => !(facts.confirmed == Set::<int>::empty()
                && facts.excluded.contains(i)),
        }
    }
}

/// Whether a word may hold a letter `count` times, given the `facts` about
/// the letter: a present letter may occur twice or three times only as long
/// as that is still allowed for it.
pub open spec fn repetition_allows(facts: LetterFacts, count: nat) -> bool {
    facts.membership == Membership::Present ==> (count == 2 ==> facts.double_allowed) && (count
        == 3 ==> facts.triple_allowed)
}

/// Whether `word` agrees with everything known: each of its letters may
/// stand where it stands, the word holds every letter known to be present,
/// and no letter occurs in it more often than is still allowed.
pub open spec fn consistent(
    word: Seq<char>,
    letters: Map<char, LetterFacts>,
    buffer: Seq<char>,
    present: Set<char>,
) -> bool {
    &&& forall|i: int|
        0 <= i < word.len() ==> position_allows(letters[#[trigger] word[i]], buffer[i], word[i], i)
    &&& forall|c: char| present.contains(c) ==> word.contains(c)
    &&& forall|i: int|
        0 <= i < word.len() ==> repetition_allows(
            letters[#[trigger] word[i]],
            occurrences(word, word[i]),
        )
}

/// The test that the candidate filter applies to each word.
pub open spec fn keeps(
    letters: Map<char, LetterFacts>,
    buffer: Seq<char>,
    present: Set<char>,
) -> spec_fn(Seq<char>) -> bool {
    |word: Seq<char>| consistent(word, letters, buffer, present)
}

/// Tells whether `word` agrees with everything known.
pub fn is_consistent(
    word: &String,
    letters: &ConstraintStore,
    final_guess: &Vec<char>,
    in_word: &LetterSet,
) -> (b: bool)
    requires
        valid_word(word@),
        final_guess@.len() == WORD_LEN,
    ensures
        b == consistent(word@, letters@, final_guess@, in_word@),
{
    let mut i: usize = 0;
    while i < WORD_LEN
        invariant
            i <= WORD_LEN,
            valid_word(word@),
            final_guess@.len() == WORD_LEN,
            forall|j: int|
                0 <= j < i ==> position_allows(
                    letters@[#[trigger] word@[j]],
                    final_guess@[j],
                    word@[j],
                    j,
                ),
        decreases WORD_LEN - i,
    {
        let c = char_at(word, i);
        let allowed = if final_guess[i] == UNSET {
            let info = letters.get(c);
            match info.membership() {
                Membership::Unknown => true,
                Membership::Absent => false,
                Membership::Present => !(!info.has_confirmed() && info.is_excluded_at(i)),
            }
        } else {
            final_guess[i] == c
        };
        if !allowed {
            assert(!position_allows(letters@[word@[i as int]], final_guess@[i as int], c, i as int));
            return false;
        }
        i += 1;
    }
    let mut n: usize = 0;
    while n < ALPHABET_LEN
        invariant
            n <= ALPHABET_LEN,
            valid_word(word@),
            forall|m: int| 0 <= m < n && in_word@.contains(letter_at(m)) ==> word@.contains(letter_at(m)),
        decreases ALPHABET_LEN - n,
    {
        let c = index_letter(n);
        proof {
            lemma_occurrences(word@, c);
        }
        if in_word.contains(c) && count_letter(word, c) == 0 {
            return false;
        }
        n += 1;
    }
    proof {
        in_word.lemma_letters_only();
        assert forall|c: char| in_word@.contains(c) implies word@.contains(c) by {
            lemma_letter_places(c);
        }
    }
    let mut i: usize = 0;
    while i < WORD_LEN
        invariant
            i <= WORD_LEN,
            valid_word(word@),
            forall|j: int|
                0 <= j < i ==> repetition_allows(
                    letters@[#[trigger] word@[j]],
                    occurrences(word@, word@[j]),
                ),
        decreases WORD_LEN - i,
    {
        let c = char_at(word, i);
        let count = count_letter(word, c);
        let info = letters.get(c);
        let allowed = match info.membership() {
            Membership::Present => !(count == 2 && !info.double_allowed()) && !(count == 3
                && !info.triple_allowed()),
            _ => true,
        };
        if !allowed {
            assert(!repetition_allows(letters@[word@[i as int]], occurrences(word@, word@[i as int])));
            return false;
        }
        i += 1;
    }
    true
}

/// Keeps the words that agree with everything known, in the order in which
/// they came.
pub fn filter_words(
    letters: &ConstraintStore,
    words: Vec<String>,
    final_guess: &Vec<char>,
    in_word: &LetterSet,
) -> (new_words: Vec<String>)
    requires
        valid_words(word_views(words@)),
        final_guess@.len() == WORD_LEN,
    ensures
        word_views(new_words@) == word_views(words@).filter(
            keeps(letters@, final_guess@, in_word@),
        ),
        forall|k: int|
            0 <= k < new_words@.len() ==> word_views(words@).contains(
                #[trigger] word_views(new_words@)[k],
            ),
        new_words@.len() <= words@.len(),
        valid_words(word_views(new_words@)),
{
    let ghost all = word_views(words@);
    let ghost test = keeps(letters@, final_guess@, in_word@);
    let mut new_words: Vec<String> = Vec::new();
    let mut k: usize = 0;
    proof {
        reveal(Seq::filter);
        assert(all.take(0).filter(test) =~= word_views(new_words@));
    }
    while k < words.len()
        invariant
            k <= words@.len(),
            all == word_views(words@),
            test == keeps(letters@, final_guess@, in_word@),
            valid_words(all),
            final_guess@.len() == WORD_LEN,
            word_views(new_words@) == all.take(k as int).filter(test),
        decreases words@.len() - k,
    {
        proof {
            reveal(Seq::filter);
            assert(all.take(k + 1).drop_last() =~= all.take(k as int));
            assert(all.take(k + 1).last() == words@[k as int]@);
            assert(valid_word(all[k as int]));
        }
        let ghost kept = word_views(new_words@);
        if is_consistent(&words[k], letters, final_guess, in_word) {
            new_words.push(words[k].clone());
            assert(word_views(new_words@) =~= kept.push(words@[k as int]@));
        }
        k += 1;
    }
    proof {
        assert(all.take(words@.len() as int) =~= all);
        let kept = word_views(new_words@);
        all.lemma_filter_len(test);
        assert forall|j: int| 0 <= j < kept.len() implies all.contains(#[trigger] kept[j]) by {
            all.lemma_filter_contains_rev(test, kept[j]);
        }
        assert forall|j: int| 0 <= j < kept.len() implies valid_word(#[trigger] kept[j]) by {
            let p = choose|p: int| 0 <= p < all.len() && all[p] == kept[j];
            assert(valid_word(all[p]));
        }
    }
    new_words
}

} // verus!
