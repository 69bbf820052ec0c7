//! What a trial knows, and why it can be relied on: as long as all feedback
//! comes from one hidden word, what is known is true of that word.

use vstd::prelude::*;
use crate::alphabet::is_letter;
use crate::feedback::{
    buffer_after, buffer_agrees, facts_after, hits, letters_after, misses, present_after, UNSET,
};
use crate::filter::{consistent, keeps, position_allows, repetition_allows};
use crate::letters::{fresh_letters, LetterFacts, Membership};
use crate::words::{lemma_occurrences, occurrences, valid_word, WORD_LEN};

verus! {

/// What a trial knows after some rounds.
#[verifier::ext_equal]
pub struct Knowledge {
    /// The facts about each letter.
    pub letters: Map<char, LetterFacts>,
    /// The guess buffer: the letters whose position is confirmed.
    pub buffer: Seq<char>,
    /// The letters known to be present.
    pub present: Set<char>,
}

/// What a trial knows before its first guess.
pub open spec fn fresh_knowledge() -> Knowledge {
    Knowledge {
        letters: fresh_letters(),
        buffer: Seq::new(WORD_LEN as nat, |i: int| UNSET),
        present: Set::empty(),
    }
}

/// What a trial knows once the feedback on `guess` has been added.
pub open spec fn knowledge_after(before: Knowledge, target: Seq<char>, guess: Seq<char>) -> Knowledge {
    Knowledge {
        letters: letters_after(before.letters, target, guess),
        buffer: buffer_after(before.buffer, target, guess),
        present: present_after(before.present, target, guess),
    }
}

/// The membership and the positions recorded for the letter `c` are true of
/// `target`.
pub open spec fn facts_agree(facts: LetterFacts, target: Seq<char>, c: char) -> bool {
    &&& facts.membership == Membership::Present ==> target.contains(c)
    &&& facts.membership == Membership::Absent ==> !target.contains(c)
    &&& forall|i: int| #[trigger]
        facts.confirmed.contains(i) ==> 0 <= i < target.len() && target[i] == c
    &&& forall|i: int| #[trigger]
        facts.excluded.contains(i) ==> 0 <= i < target.len() && target[i] != c
}

/// The caps recorded for the letter `c` are true of `target`: a count that
/// is no longer allowed is not the count of `c` in `target`.
pub open spec fn caps_agree(facts: LetterFacts, target: Seq<char>, c: char) -> bool {
    &&& !facts.double_allowed ==> occurrences(target, c) != 2
    &&& !facts.triple_allowed ==> occurrences(target, c) != 3
}

/// Memberships, positions, the guess buffer and the present letters are
/// true of `target`.
pub open spec fn agrees(known: Knowledge, target: Seq<char>) -> bool {
    &&& forall|c: char| is_letter(c) ==> facts_agree(#[trigger] known.letters[c], target, c)
    &&& known.buffer.len() == WORD_LEN
    &&& buffer_agrees(known.buffer, target)
    &&& forall|c: char| #[trigger] known.present.contains(c) ==> target.contains(c)
}

/// The caps of every letter are true of `target`.
pub open spec fn all_caps_agree(known: Knowledge, target: Seq<char>) -> bool {
    forall|c: char| is_letter(c) ==> caps_agree(#[trigger] known.letters[c], target, c)
}

/// `guess` holds some letter more than three times that `target` holds
/// exactly three times. The feedback on such a guess forbids the letter to
/// occur three times, which is not true of `target`.
pub open spec fn overshoots(target: Seq<char>, guess: Seq<char>) -> bool {
    exists|c: char| occurrences(target, c) == 3 && #[trigger] occurrences(guess, c) > 3
}

/// Before the first guess nothing is known, and that is true of every word.
pub proof fn lemma_fresh_knowledge_agrees(target: Seq<char>)
    ensures
        agrees(fresh_knowledge(), target),
        all_caps_agree(fresh_knowledge(), target),
{
}

/// Feedback from the word that the knowledge is true of leaves it true of
/// that word.
pub proof fn lemma_feedback_agrees(known: Knowledge, target: Seq<char>, guess: Seq<char>)
    requires
        valid_word(target),
        valid_word(guess),
        agrees(known, target),
    ensures
        agrees(knowledge_after(known, target, guess), target),
{
    let after = knowledge_after(known, target, guess);
    assert forall|c: char| is_letter(c) implies facts_agree(
        #[trigger] after.letters[c],
        target,
        c,
    ) by {
        let before = known.letters[c];
        let facts = after.letters[c];
        assert(facts_agree(before, target, c));
        assert(facts == facts_after(before, target, guess, c));
        assert forall|i: int| facts.confirmed.contains(i) implies 0 <= i < target.len()
            && target[i] == c by {
            if !before.confirmed.contains(i) {
                assert(hits(target, guess, c).contains(i));
            }
        }
        assert forall|i: int| facts.excluded.contains(i) implies 0 <= i < target.len()
            && target[i] != c by {
            if !before.excluded.contains(i) {
                assert(misses(target, guess, c).contains(i));
            }
        }
    }
    assert forall|c: char| after.present.contains(c) implies target.contains(c) by {}
}

/// Feedback from the word that the caps are true of leaves them true of that
/// word, unless the guess overshoots.
pub proof fn lemma_feedback_caps_agree(known: Knowledge, target: Seq<char>, guess: Seq<char>)
    requires
        valid_word(target),
        valid_word(guess),
        all_caps_agree(known, target),
        !overshoots(target, guess),
    ensures
        all_caps_agree(knowledge_after(known, target, guess), target),
{
    let after = knowledge_after(known, target, guess);
    assert forall|c: char| is_letter(c) implies caps_agree(
        #[trigger] after.letters[c],
        target,
        c,
    ) by {
        assert(caps_agree(known.letters[c], target, c));
        lemma_occurrences(guess, c);
        lemma_occurrences(target, c);
        if occurrences(target, c) == 3 {
            assert(!(occurrences(guess, c) > 3));
        }
    }
}

/// Within a trial, what has been learned stays: a slot of the guess buffer
/// that is set is not changed, a membership that is known is not changed,
/// confirmed and excluded positions are only added, and no position is both
/// confirmed and excluded for a letter.
pub proof fn lemma_knowledge_settles(known: Knowledge, target: Seq<char>, guess: Seq<char>)
    requires
        valid_word(target),
        valid_word(guess),
        agrees(known, target),
    ensures
        forall|i: int|
            0 <= i < WORD_LEN && known.buffer[i] != UNSET ==> #[trigger] knowledge_after(
                known,
                target,
                guess,
            ).buffer[i] == known.buffer[i],
        forall|c: char|
            is_letter(c) && known.letters[c].membership != Membership::Unknown ==> (
            #[trigger] knowledge_after(known, target, guess).letters[c]).membership
                == known.letters[c].membership,
        forall|c: char|
            is_letter(c) ==> known.letters[c].confirmed.subset_of(
                (#[trigger] knowledge_after(known, target, guess).letters[c]).confirmed,
            ) && known.letters[c].excluded.subset_of(
                knowledge_after(known, target, guess).letters[c].excluded,
            ),
        forall|c: char|
            is_letter(c) ==> (#[trigger] knowledge_after(
                known,
                target,
                guess,
            ).letters[c]).confirmed.disjoint(
                knowledge_after(known, target, guess).letters[c].excluded,
            ),
        known.present.subset_of(knowledge_after(known, target, guess).present),
{
    let after = knowledge_after(known, target, guess);
    lemma_feedback_agrees(known, target, guess);
    assert forall|c: char|
        is_letter(c) && known.letters[c].membership != Membership::Unknown implies (
    #[trigger] after.letters[c]).membership == known.letters[c].membership by {
        assert(facts_agree(known.letters[c], target, c));
    }
    assert forall|c: char| is_letter(c) implies (#[trigger] after.letters[c]).confirmed.disjoint(
        after.letters[c].excluded,
    ) by {
        let facts = after.letters[c];
        assert(facts_agree(facts, target, c));
        assert forall|i: int| !(facts.confirmed.contains(i) && facts.excluded.contains(i)) by {}
    }
}

/// The word that the knowledge is true of agrees with it: the candidate
/// filter keeps that word.
pub proof fn lemma_target_is_consistent(known: Knowledge, target: Seq<char>)
    requires
        valid_word(target),
        agrees(known, target),
        all_caps_agree(known, target),
    ensures
        consistent(target, known.letters, known.buffer, known.present),
{
    assert forall|i: int| 0 <= i < target.len() implies position_allows(
        known.letters[#[trigger] target[i]],
        known.buffer[i],
        target[i],
        i,
    ) by {
        let c = target[i];
        assert(is_letter(c));
        assert(facts_agree(known.letters[c], target, c));
        assert(target.contains(c));
    }
    assert forall|i: int| 0 <= i < target.len() implies repetition_allows(
        known.letters[#[trigger] target[i]],
        occurrences(target, target[i]),
    ) by {
        let c = target[i];
        assert(is_letter(c));
        assert(caps_agree(known.letters[c], target, c));
    }
}

/// The hidden word stays among the candidates: where it is one of them and
/// what is known is true of it, it is still one after the feedback on a
/// guess that does not overshoot has been added and the candidates have been
/// filtered.
pub proof fn lemma_target_survives(
    words: Seq<Seq<char>>,
    known: Knowledge,
    target: Seq<char>,
    guess: Seq<char>,
)
    requires
        valid_word(target),
        valid_word(guess),
        words.contains(target),
        agrees(known, target),
        all_caps_agree(known, target),
        !overshoots(target, guess),
    ensures
        ({
            let learned = knowledge_after(known, target, guess);
            &&& agrees(learned, target)
            &&& all_caps_agree(learned, target)
            &&& words.filter(keeps(learned.letters, learned.buffer, learned.present)).contains(
                target,
            )
        }),
{
    let learned = knowledge_after(known, target, guess);
    lemma_feedback_agrees(known, target, guess);
    lemma_feedback_caps_agree(known, target, guess);
    lemma_target_is_consistent(learned, target);
    let test = keeps(learned.letters, learned.buffer, learned.present);
    let at = choose|at: int| 0 <= at < words.len() && words[at] == target;
    assert(test(words[at]));
    words.lemma_filter_contains(test, at);
}

/// What a trial knows once the feedback on each of `guesses` has been added,
/// in their order.
pub open spec fn knowledge_after_all(
    before: Knowledge,
    target: Seq<char>,
    guesses: Seq<Seq<char>>,
) -> Knowledge
    decreases guesses.len(),
{
    if guesses.len() == 0 {
        before
    } else {
        knowledge_after(
            knowledge_after_all(before, target, guesses.drop_last()),
            target,
            guesses.last(),
        )
    }
}

/// What is known stays true of the hidden word through any number of
/// guesses.
pub proof fn lemma_feedback_agrees_all(
    known: Knowledge,
    target: Seq<char>,
    guesses: Seq<Seq<char>>,
)
    requires
        valid_word(target),
        forall|k: int| 0 <= k < guesses.len() ==> valid_word(#[trigger] guesses[k]),
        agrees(known, target),
    ensures
        agrees(knowledge_after_all(known, target, guesses), target),
    decreases guesses.len(),
{
    if guesses.len() > 0 {
        lemma_feedback_agrees_all(known, target, guesses.drop_last());
        lemma_feedback_agrees(
            knowledge_after_all(known, target, guesses.drop_last()),
            target,
            guesses.last(),
        );
    }
}

/// A slot of the guess buffer that is set during a trial keeps its letter
/// for the rest of the trial: whatever guesses `earlier` and `later` hold, a
/// slot that is set after the feedback on `earlier` holds the same letter
/// after the feedback on `later` has been added.
pub proof fn lemma_set_slot_is_permanent(
    target: Seq<char>,
    earlier: Seq<Seq<char>>,
    later: Seq<Seq<char>>,
    i: int,
)
    requires
        valid_word(target),
        forall|k: int| 0 <= k < earlier.len() ==> valid_word(#[trigger] earlier[k]),
        forall|k: int| 0 <= k < later.len() ==> valid_word(#[trigger] later[k]),
        0 <= i < WORD_LEN,
        knowledge_after_all(fresh_knowledge(), target, earlier).buffer[i] != UNSET,
    ensures
        knowledge_after_all(fresh_knowledge(), target, earlier + later).buffer[i]
            == knowledge_after_all(fresh_knowledge(), target, earlier).buffer[i],
    decreases later.len(),
{
    let then = knowledge_after_all(fresh_knowledge(), target, earlier);
    lemma_fresh_knowledge_agrees(target);
    lemma_feedback_agrees_all(fresh_knowledge(), target, earlier);
    if later.len() == 0 {
        assert(earlier + later =~= earlier);
    } else {
        let shorter = later.drop_last();
        assert((earlier + later).drop_last() =~= earlier + shorter);
        assert((earlier + later).last() == later.last());
        lemma_set_slot_is_permanent(target, earlier, shorter, i);
        assert forall|k: int| 0 <= k < (earlier + shorter).len() implies valid_word(
            #[trigger] (earlier + shorter)[k],
        ) by {
            if k < earlier.len() {
                assert((earlier + shorter)[k] == earlier[k]);
            } else {
                assert((earlier + shorter)[k] == later[k - earlier.len()]);
            }
        }
        lemma_feedback_agrees_all(fresh_knowledge(), target, earlier + shorter);
        lemma_knowledge_settles(
            knowledge_after_all(fresh_knowledge(), target, earlier + shorter),
            target,
            later.last(),
        );
    }
}

/// A letter that has lost the right to occur twice, or three times, does not
/// get it back: whatever was known and whatever guesses follow, a right that
/// the letter has afterwards is one that it had before.
pub proof fn lemma_caps_are_permanent(
    known: Knowledge,
    target: Seq<char>,
    guesses: Seq<Seq<char>>,
    c: char,
)
    requires
        is_letter(c),
    ensures
        knowledge_after_all(known, target, guesses).letters[c].double_allowed
            ==> known.letters[c].double_allowed,
        knowledge_after_all(known, target, guesses).letters[c].triple_allowed
            ==> known.letters[c].triple_allowed,
    decreases guesses.len(),
{
    if guesses.len() > 0 {
        lemma_caps_are_permanent(known, target, guesses.drop_last(), c);
    }
}

} // verus!
