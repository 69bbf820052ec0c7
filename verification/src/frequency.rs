//! The positional frequency model: how often each letter stands at each
//! position among the candidate words.

use vstd::prelude::*;
use crate::alphabet::{
    char_is_letter, is_letter, lemma_letter_places, lemma_place_letters, letter_at, letter_index,
    letter_number, ALPHABET_LEN,
};
use crate::words::{char_at, valid_word, valid_words, word_views, WORD_LEN};

verus! {

/// How many of `words` hold `c` at position `i`.
pub open spec fn position_count(words: Seq<Seq<char>>, c: char, i: int) -> nat
    decreases words.len(),
{
    if words.len() == 0 {
        0
    } else {
        position_count(words.drop_last(), c, i) + if words.last()[i] == c {
            1nat
        } else {
            0nat
        }
    }
}

/// Some word of the list holds `c`.
pub open spec fn appears_in(words: Seq<Seq<char>>, c: char) -> bool {
    exists|k: int, i: int| 0 <= k < words.len() && 0 <= i < WORD_LEN && #[trigger] words[k][i] == c
}

/// The mathematical content of a [`FrequencyTable`]. The frequency of a
/// letter at a position is the fraction of `counts` at that position over
/// `total`.
#[verifier::ext_equal]
pub struct Frequencies {
    /// For each letter that some word holds: at each of the five positions,
    /// the number of words that hold the letter there.
    pub counts: Map<char, Seq<nat>>,
    /// The number of words.
    pub total: nat,
}

impl Frequencies {
    /// The number of words that hold `c` at position `i`; 0 for a letter
    /// without an entry.
    pub open spec fn count(self, c: char, i: int) -> nat {
        if self.counts.dom().contains(c) && 0 <= i < self.counts[c].len() {
            self.counts[c][i]
        } else {
            0
        }
    }
}

/// The frequency model of a word list: an entry for each letter that some
/// word holds, and none for the others.
pub open spec fn frequencies_of(words: Seq<Seq<char>>) -> Frequencies {
    Frequencies {
        counts: Map::new(
            |c: char| appears_in(words, c),
            |c: char| Seq::new(WORD_LEN as nat, |i: int| position_count(words, c, i)),
        ),
        total: words.len(),
    }
}

/// No position is counted more often than there are words, and a letter is
/// counted at a position exactly when some word holds it there.
pub proof fn lemma_position_count(words: Seq<Seq<char>>, c: char, i: int)
    ensures
        position_count(words, c, i) <= words.len(),
        position_count(words, c, i) > 0 <==> exists|k: int|
            0 <= k < words.len() && #[trigger] words[k][i] == c,
    decreases words.len(),
{
    if words.len() > 0 {
        let rest = words.drop_last();
        lemma_position_count(rest, c, i);
        if position_count(rest, c, i) > 0 {
            let k = choose|k: int| 0 <= k < rest.len() && #[trigger] rest[k][i] == c;
            assert(words[k][i] == c);
        }
        if words.last()[i] == c {
            assert(words[words.len() - 1][i] == c);
        }
        if exists|k: int| 0 <= k < words.len() && #[trigger] words[k][i] == c {
            let k = choose|k: int| 0 <= k < words.len() && #[trigger] words[k][i] == c;
            if k < words.len() - 1 {
                assert(rest[k][i] == c);
            }
        }
    }
}

/// The positional frequencies of a word list, kept exactly: for each letter
/// and position the number of words that hold the letter there, and the
/// number of words by which to divide it.
#[derive(Clone, Copy, Debug)]
pub struct FrequencyTable {
    counts: [[usize; 5]; 26],
    total: usize,
}

impl View for FrequencyTable {
    type V = Frequencies;

    closed spec fn view(&self) -> Frequencies {
        Frequencies {
            counts: Map::new(
                |c: char|
                    is_letter(c) && exists|i: int|
                        0 <= i < WORD_LEN && #[trigger] self.counts[letter_number(c)][i] > 0,
                |c: char|
                    Seq::new(WORD_LEN as nat, |i: int| self.counts[letter_number(c)][i] as nat),
            ),
            total: self.total as nat,
        }
    }
}

impl FrequencyTable {
    /// The number of words that the table was made from.
    pub fn total(&self) -> (n: usize)
        ensures
            n == self@.total,
    {
        self.total
    }

    /// Tells whether some word holds `c`, so that the table has an entry for
    /// it.
    pub fn has_entry(&self, c: char) -> (b: bool)
        ensures
            b == self@.counts.dom().contains(c),
    {
        if !char_is_letter(c) {
            return false;
        }
        let row = self.counts[letter_index(c)];
        let mut i: usize = 0;
        while i < WORD_LEN
            invariant
                i <= WORD_LEN,
                is_letter(c),
                row == self.counts[letter_number(c)],
                forall|j: int| 0 <= j < i ==> row[j] == 0,
            decreases WORD_LEN - i,
        {
            if row[i] > 0 {
                return true;
            }
            i += 1;
        }
        false
    }

    /// The number of words that hold `c` at position `i`; 0 where the table
    /// has no entry for `c`.
    pub fn count(&self, c: char, i: usize) -> (n: usize)
        ensures
            n == self@.count(c, i as int),
    {
        if char_is_letter(c) && i < WORD_LEN {
            self.counts[letter_index(c)][i]
        } else {
            0
        }
    }
}

/// Counts, for each letter and each position, the words that hold the letter
/// at the position. The frequency of a letter at a position is that count
/// over the number of words.
pub fn make_probabilities(words: &Vec<String>) -> (table: FrequencyTable)
    requires
        valid_words(word_views(words@)),
    ensures
        table@ == frequencies_of(word_views(words@)),
{
    let ghost all = word_views(words@);
    let mut counts: [[usize; 5]; 26] = [[0; 5]; 26];
    let mut k: usize = 0;
    while k < words.len()
        invariant
            k <= words@.len(),
            all == word_views(words@),
            valid_words(all),
            forall|n: int, i: int|
                0 <= n < ALPHABET_LEN && 0 <= i < WORD_LEN ==> #[trigger] counts[n][i]
                    == position_count(all.take(k as int), letter_at(n), i),
        decreases words@.len() - k,
    {
        let word = &words[k];
        let ghost before = all.take(k as int);
        proof {
            assert(valid_word(all[k as int]));
            assert(all.take(k + 1).drop_last() =~= before);
            assert(all.take(k + 1).last() == word@);
        }
        let mut i: usize = 0;
        while i < WORD_LEN
            invariant
                i <= WORD_LEN,
                k < usize::MAX,
                valid_word(word@),
                before.len() == k,
                forall|n: int, j: int|
                    0 <= n < ALPHABET_LEN && 0 <= j < WORD_LEN ==> #[trigger] counts[n][j]
                        == position_count(before, letter_at(n), j) + if j < i && word@[j]
                        == letter_at(n) {
                        1nat
                    } else {
                        0nat
                    },
            decreases WORD_LEN - i,
        {
            let c = char_at(word, i);
            let n = letter_index(c);
            let mut row = counts[n];
            proof {
                lemma_letter_places(c);
                lemma_position_count(before, c, i as int);
                assert(letter_at(n as int) == c);
                assert(counts[n as int][i as int] == position_count(before, c, i as int));
                assert(row[i as int] == counts[n as int][i as int]);
                assert(row[i as int] <= k);
                assert forall|m: int| 0 <= m < ALPHABET_LEN && m != n implies letter_at(m)
                    != c by {
                    lemma_place_letters(m);
                }
            }
            row[i] = row[i] + 1;
            counts[n] = row;
            i += 1;
        }
        k += 1;
    }
    let table = FrequencyTable { counts, total: words.len() };
    proof {
        assert(all.take(words@.len() as int) =~= all);
        let left = table@;
        let right = frequencies_of(all);
        assert forall|c: char| left.counts.dom().contains(c) <==> right.counts.dom().contains(
            c,
        ) by {
            if left.counts.dom().contains(c) {
                lemma_letter_places(c);
                let i = choose|i: int|
                    0 <= i < WORD_LEN && #[trigger] table.counts[letter_number(c)][i] > 0;
                lemma_position_count(all, c, i);
                let w = choose|w: int| 0 <= w < all.len() && #[trigger] all[w][i] == c;
                assert(all[w][i] == c);
            }
            if right.counts.dom().contains(c) {
                let (w, i) = choose|w: int, i: int|
                    0 <= w < all.len() && 0 <= i < WORD_LEN && #[trigger] all[w][i] == c;
                assert(valid_word(all[w]));
                assert(is_letter(all[w][i]));
                lemma_letter_places(c);
                lemma_position_count(all, c, i);
                assert(table.counts[letter_number(c)][i] > 0);
            }
        }
        assert forall|c: char| left.counts.dom().contains(c) implies #[trigger] left.counts[c]
            =~= right.counts[c] by {
            lemma_letter_places(c);
        }
        assert(left.counts =~= right.counts);
        assert(left =~= right);
    }
    table
}

} // verus!
