//! What is known about each letter of the alphabet.

use vstd::prelude::*;
use crate::alphabet::{char_is_letter, is_letter, letter_index, letter_number};
use crate::words::WORD_LEN;

verus! {

/// Whether a letter occurs in the hidden word, as far as the feedback has
/// shown.
#[derive(Clone, Copy, Debug, PartialEq, Eq, Structural)]
pub enum Membership {
    /// No guess has held the letter yet.
    Unknown,
    /// The hidden word does not hold the letter.
    Absent,
    /// The hidden word holds the letter.
    Present,
}

/// The mathematical content of a [`LetterInfo`].
#[verifier::ext_equal]
pub struct LetterFacts {
    /// Whether the letter occurs in the hidden word.
    pub membership: Membership,
    /// The positions at which the letter is known to stand.
    pub confirmed: Set<int>,
    /// The positions at which the letter is known not to stand, although the
    /// hidden word holds it.
    pub excluded: Set<int>,
    /// Whether the hidden word may still hold the letter exactly twice.
    pub double_allowed: bool,
    /// Whether the hidden word may still hold the letter exactly three times.
    pub triple_allowed: bool,
}

/// The facts about a letter before any feedback.
pub open spec fn no_facts() -> LetterFacts {
    LetterFacts {
        membership: Membership::Unknown,
        confirmed: Set::empty(),
        excluded: Set::empty(),
        double_allowed: true,
        triple_allowed: true,
    }
}

/// The knowledge gathered about one letter.
#[derive(Clone, Copy, Debug)]
pub struct LetterInfo {
    in_word: Membership,
    double: bool,
    triple: bool,
    position: [bool; 5],
    not_position: [bool; 5],
}

impl View for LetterInfo {
    type V = LetterFacts;

    closed spec fn view(&self) -> LetterFacts {
        LetterFacts {
            membership: self.in_word,
            confirmed: Set::new(|i: int| 0 <= i < WORD_LEN && self.position[i]),
            excluded: Set::new(|i: int| 0 <= i < WORD_LEN && self.not_position[i]),
            double_allowed: self.double,
            triple_allowed: self.triple,
        }
    }
}

impl LetterInfo {
    /// The knowledge about a letter before any feedback.
    pub fn new() -> (info: LetterInfo)
        ensures
            info@ == no_facts(),
    {
        let info = LetterInfo {
            in_word: Membership::Unknown,
            double: true,
            triple: true,
            position: [false; 5],
            not_position: [false; 5],
        };
        assert(info@.confirmed =~= Set::empty());
        assert(info@.excluded =~= Set::empty());
        info
    }

    /// Whether the letter occurs in the hidden word.
    pub fn membership(&self) -> (m: Membership)
        ensures
            m == self@.membership,
    {
        self.in_word
    }

    /// Whether the hidden word may still hold the letter exactly twice.
    pub fn double_allowed(&self) -> (b: bool)
        ensures
            b == self@.double_allowed,
    {
        self.double
    }

    /// Whether the hidden word may still hold the letter exactly three times.
    pub fn triple_allowed(&self) -> (b: bool)
        ensures
            b == self@.triple_allowed,
    {
        self.triple
    }

    /// Whether the letter is known to stand at position `i`.
    pub fn is_confirmed_at(&self, i: usize) -> (b: bool)
        ensures
            b == self@.confirmed.contains(i as int),
    {
        i < WORD_LEN && self.position[i]
    }

    /// Whether the letter is known not to stand at position `i`, although the
    /// hidden word holds it.
    pub fn is_excluded_at(&self, i: usize) -> (b: bool)
        ensures
            b == self@.excluded.contains(i as int),
    {
        i < WORD_LEN && self.not_position[i]
    }

    /// Whether the letter is known to stand at some position.
    pub fn has_confirmed(&self) -> (b: bool)
        ensures
            b == !(self@.confirmed =~= Set::empty()),
    {
        let mut i: usize = 0;
        while i < WORD_LEN
            invariant
                i <= WORD_LEN,
                forall|j: int| 0 <= j < i ==> !self.position[j],
            decreases WORD_LEN - i,
        {
            if self.position[i] {
                assert(self@.confirmed.contains(i as int));
                return true;
            }
            i += 1;
        }
        false
    }

    /// Records whether the hidden word holds the letter.
    pub(crate) fn set_membership(&mut self, m: Membership)
        ensures
            final(self)@ == (LetterFacts { membership: m, ..old(self)@ }),
    {
        self.in_word = m;
    }

    /// Records that the letter stands at position `i`.
    pub(crate) fn confirm_at(&mut self, i: usize)
        requires
            i < WORD_LEN,
        ensures
            final(self)@ == (LetterFacts {
                confirmed: old(self)@.confirmed.insert(i as int),
                ..old(self)@
            }),
    {
        self.position[i] = true;
        assert(self@.confirmed =~= old(self)@.confirmed.insert(i as int));
    }

    /// Records that the letter does not stand at position `i`.
    pub(crate) fn exclude_at(&mut self, i: usize)
        requires
            i < WORD_LEN,
        ensures
            final(self)@ == (LetterFacts {
                excluded: old(self)@.excluded.insert(i as int),
                ..old(self)@
            }),
    {
        self.not_position[i] = true;
        assert(self@.excluded =~= old(self)@.excluded.insert(i as int));
    }

    /// Records that the hidden word does not hold the letter exactly twice.
    pub(crate) fn forbid_double(&mut self)
        ensures
            final(self)@ == (LetterFacts { double_allowed: false, ..old(self)@ }),
    {
        self.double = false;
    }

    /// Records that the hidden word does not hold the letter exactly three
    /// times.
    pub(crate) fn forbid_triple(&mut self)
        ensures
            final(self)@ == (LetterFacts { triple_allowed: false, ..old(self)@ }),
    {
        self.triple = false;
    }
}

/// The knowledge gathered about every letter of the alphabet.
#[derive(Clone, Copy, Debug)]
pub struct ConstraintStore {
    entries: [LetterInfo; 26],
}

impl View for ConstraintStore {
    type V = Map<char, LetterFacts>;

    closed spec fn view(&self) -> Map<char, LetterFacts> {
        Map::new(|c: char| is_letter(c), |c: char| self.entries[letter_number(c)]@)
    }
}

/// The store before any feedback: nothing is known about any letter.
pub open spec fn fresh_letters() -> Map<char, LetterFacts> {
    Map::new(|c: char| is_letter(c), |c: char| no_facts())
}

impl ConstraintStore {
    /// The store speaks of the letters of the alphabet and of nothing else.
    pub proof fn lemma_domain(&self)
        ensures
            forall|c: char| self@.dom().contains(c) <==> is_letter(c),
    {
    }

    /// What is known about the letter `c`.
    pub fn get(&self, c: char) -> (info: LetterInfo)
        requires
            is_letter(c),
        ensures
            info@ == self@[c],
    {
        self.entries[letter_index(c)]
    }

    /// Replaces what is known about the letter `c`.
    pub(crate) fn put(&mut self, c: char, info: LetterInfo)
        requires
            is_letter(c),
        ensures
            final(self)@ == old(self)@.insert(c, info@),
    {
        self.entries[letter_index(c)] = info;
        assert(self@ =~= old(self)@.insert(c, info@));
    }
}

/// The store at the start of a trial: for each of the 26 letters the
/// membership is unknown, no position is confirmed or excluded, and the
/// letter may still occur twice or three times.
pub fn get_letters() -> (letters: ConstraintStore)
    ensures
        letters@ == fresh_letters(),
{
    let letters = ConstraintStore { entries: [LetterInfo::new(); 26] };
    assert(letters@ =~= fresh_letters());
    letters
}

/// A set of letters of the alphabet.
#[derive(Clone, Copy, Debug)]
pub struct LetterSet {
    members: [bool; 26],
}

impl View for LetterSet {
    type V = Set<char>;

    closed spec fn view(&self) -> Set<char> {
        Set::new(|c: char| is_letter(c) && self.members[letter_number(c)])
    }
}

impl LetterSet {
    /// The empty set.
    pub fn new() -> (set: LetterSet)
        ensures
            set@ == Set::<char>::empty(),
    {
        let set = LetterSet { members: [false; 26] };
        assert(set@ =~= Set::<char>::empty());
        set
    }

    /// A set holds letters of the alphabet only.
    pub proof fn lemma_letters_only(&self)
        ensures
            forall|c: char| self@.contains(c) ==> is_letter(c),
    {
    }

    /// Tells whether the set holds `c`.
    pub fn contains(&self, c: char) -> (b: bool)
        ensures
            b == self@.contains(c),
    {
        char_is_letter(c) && self.members[letter_index(c)]
    }

    /// Adds the letter `c` to the set.
    pub fn insert(&mut self, c: char)
        requires
            is_letter(c),
        ensures
            final(self)@ == old(self)@.insert(c),
    {
        self.members[letter_index(c)] = true;
        assert(self@ =~= old(self)@.insert(c));
    }
}

} // verus!
