//! The simulation driver: a trial plays up to six rounds of guessing against
//! one hidden word, and a simulation counts the trials that find theirs.

use vstd::prelude::*;
use crate::feedback::{compare, UNSET};
use crate::filter::{filter_words, keeps};
use crate::frequency::{frequencies_of, make_probabilities};
use crate::knowledge::{
    agrees, all_caps_agree, fresh_knowledge, knowledge_after, lemma_fresh_knowledge_agrees,
    lemma_target_survives, overshoots, Knowledge,
};
use crate::letters::{get_letters, LetterSet};
use crate::random::get_random_word;
use crate::ranking::{
    best_below, best_word, grab_best_word, lemma_best_below, scores_of, valid_word_prob,
};
use crate::target::final_info;
use crate::words::{valid_word, valid_words, word_views, WORD_LEN};

verus! {

/// The number of guesses that a trial may make.
pub const ROUND_LIMIT: usize = 6;

/// The candidates that agree with what is known.
pub open spec fn survivors(words: Seq<Seq<char>>, known: Knowledge) -> Seq<Seq<char>> {
    words.filter(keeps(known.letters, known.buffer, known.present))
}

/// The guess that a round makes: the word that the ranking of the
/// candidates by their own frequencies puts first.
pub open spec fn next_guess(words: Seq<Seq<char>>) -> Seq<char> {
    best_word(words, frequencies_of(words))
}

/// How the rest of a trial goes, `rounds_left` guesses being left: whether it
/// finds `target`, and how many guesses it makes.
///
/// With no guess or no candidate left the trial has failed. Else it guesses.
/// If the guess is `target` it has succeeded; if not, the feedback is added to
/// what is known, the candidates are filtered, and the trial goes on.
pub open spec fn trial_from(
    words: Seq<Seq<char>>,
    target: Seq<char>,
    known: Knowledge,
    rounds_left: nat,
) -> (bool, nat)
    decreases rounds_left,
{
    if rounds_left == 0 || words.len() == 0 {
        (false, 0)
    } else {
        let guess = next_guess(words);
        if guess == target {
            (true, 1)
        } else {
            let learned = knowledge_after(known, target, guess);
            let rest = trial_from(
                survivors(words, learned),
                target,
                learned,
                (rounds_left - 1) as nat,
            );
            (rest.0, (rest.1 + 1) as nat)
        }
    }
}

/// A trial makes no more guesses than it has left, and one that succeeds has
/// made at least one.
pub proof fn lemma_trial_ends(
    words: Seq<Seq<char>>,
    target: Seq<char>,
    known: Knowledge,
    rounds_left: nat,
)
    ensures
        trial_from(words, target, known, rounds_left).1 <= rounds_left,
        trial_from(words, target, known, rounds_left).0 ==> trial_from(
            words,
            target,
            known,
            rounds_left,
        ).1 >= 1,
    decreases rounds_left,
{
    if rounds_left > 0 && words.len() > 0 {
        let guess = next_guess(words);
        if guess != target {
            let learned = knowledge_after(known, target, guess);
            lemma_trial_ends(survivors(words, learned), target, learned, (rounds_left - 1) as nat);
        }
    }
}

/// How a trial ended.
#[derive(Clone, Copy, Debug, PartialEq, Eq, Structural)]
pub struct TrialOutcome {
    /// Whether a guess was the hidden word.
    pub solved: bool,
    /// The number of guesses made.
    pub rounds: usize,
}

/// A guess buffer with no slot set.
pub fn new_guess_buffer() -> (final_guess: Vec<char>)
    ensures
        final_guess@ == Seq::new(WORD_LEN as nat, |i: int| UNSET),
{
    let mut final_guess: Vec<char> = Vec::new();
    let mut i: usize = 0;
    while i < WORD_LEN
        invariant
            i <= WORD_LEN,
            final_guess@ == Seq::new(i as nat, |i: int| UNSET),
        decreases WORD_LEN - i,
    {
        final_guess.push(UNSET);
        assert(final_guess@ =~= Seq::new((i + 1) as nat, |i: int| UNSET));
        i += 1;
    }
    final_guess
}

/// Plays one trial against the hidden word `final_word`, with `words` as the
/// candidates and nothing known.
///
/// Each round ranks the candidates by their own positional frequencies,
/// guesses the word ranked first, adds the feedback to what is known and, if
/// the guess was not the hidden word, filters the candidates. The trial ends
/// when a guess is the hidden word, after `ROUND_LIMIT` guesses, or when no
/// candidate is left.
pub fn run_trial(words: Vec<String>, final_word: &String) -> (outcome: TrialOutcome)
    requires
        valid_words(word_views(words@)),
        valid_word(final_word@),
    ensures
        (outcome.solved, outcome.rounds as nat) == trial_from(
            word_views(words@),
            final_word@,
            fresh_knowledge(),
            ROUND_LIMIT as nat,
        ),
        outcome.rounds <= ROUND_LIMIT,
        outcome.solved ==> outcome.rounds >= 1,
        word_views(words@).contains(final_word@) && (forall|k: int|
            0 <= k < words@.len() ==> !overshoots(final_word@, #[trigger] word_views(words@)[k]))
            ==> outcome.solved || outcome.rounds == ROUND_LIMIT,
{
    let ghost target = final_word@;
    proof {
        if word_views(words@).contains(final_word@) && (forall|k: int|
            0 <= k < words@.len() ==> !overshoots(final_word@, #[trigger] word_views(words@)[k])) {
            lemma_fresh_knowledge_agrees(final_word@);
            lemma_trial_uses_its_rounds(
                word_views(words@),
                final_word@,
                fresh_knowledge(),
                ROUND_LIMIT as nat,
            );
        }
    }
    let ghost whole = trial_from(word_views(words@), target, fresh_knowledge(), ROUND_LIMIT as nat);
    let final_word_info = final_info(final_word);
    let mut letters = get_letters();
    let mut final_guess = new_guess_buffer();
    let mut in_word = LetterSet::new();
    let mut words = words;
    let mut rounds: usize = 0;
    let mut solved = false;
    while rounds < ROUND_LIMIT && words.len() > 0 && !solved
        invariant
            rounds <= ROUND_LIMIT,
            final_word_info@ == target,
            valid_word(target),
            valid_words(word_views(words@)),
            final_guess@.len() == WORD_LEN,
            solved ==> rounds >= 1 && whole == (true, rounds as nat),
            !solved ==> ({
                let rest = trial_from(
                    word_views(words@),
                    target,
                    Knowledge { letters: letters@, buffer: final_guess@, present: in_word@ },
                    (ROUND_LIMIT - rounds) as nat,
                );
                whole.0 == rest.0 && whole.1 == rest.1 + rounds
            }),
        decreases ROUND_LIMIT - rounds,
    {
        let ghost candidates = word_views(words@);
        let ghost known = Knowledge { letters: letters@, buffer: final_guess@, present: in_word@ };
        let probabilities = make_probabilities(&words);
        let ordered_words = valid_word_prob(&words, probabilities);
        assert(candidates.contains(ordered_words@[0].0@));
        let best_word = grab_best_word(ordered_words);
        assert(best_word@ == next_guess(candidates));
        let is_word = compare(
            best_word,
            &mut letters,
            &final_word_info,
            &mut final_guess,
            &mut in_word,
        );
        rounds += 1;
        if is_word {
            solved = true;
        } else {
            words = filter_words(&letters, words, &final_guess, &in_word);
            assert(Knowledge { letters: letters@, buffer: final_guess@, present: in_word@ }
                =~= knowledge_after(known, target, next_guess(candidates)));
        }
    }
    proof {
        lemma_trial_ends(
            word_views(words@),
            target,
            Knowledge { letters: letters@, buffer: final_guess@, present: in_word@ },
            (ROUND_LIMIT - rounds) as nat,
        );
    }
    TrialOutcome { solved, rounds }
}

/// A copy of a word list.
fn copy_words(words: &Vec<String>) -> (copy: Vec<String>)
    ensures
        word_views(copy@) == word_views(words@),
{
    let mut copy: Vec<String> = Vec::new();
    let mut k: usize = 0;
    while k < words.len()
        invariant
            k <= words@.len(),
            copy@.len() == k,
            forall|j: int| 0 <= j < k ==> (#[trigger] copy@[j])@ == words@[j]@,
        decreases words@.len() - k,
    {
        copy.push(words[k].clone());
        k += 1;
    }
    assert(word_views(copy@) =~= word_views(words@));
    copy
}

/// How many of the trials against the words of `targets`, each with all of
/// `words` as its candidates, find their word.
pub open spec fn solved_count(words: Seq<Seq<char>>, targets: Seq<Seq<char>>) -> nat
    decreases targets.len(),
{
    if targets.len() == 0 {
        0
    } else {
        solved_count(words, targets.drop_last()) + if trial_from(
            words,
            targets.last(),
            fresh_knowledge(),
            ROUND_LIMIT as nat,
        ).0 {
            1nat
        } else {
            0nat
        }
    }
}

/// Plays one trial against each word of `targets`, each with all of `words`
/// as its candidates, and counts the trials that find their word.
pub fn run_trials(words: &Vec<String>, targets: &Vec<String>) -> (successes: usize)
    requires
        valid_words(word_views(words@)),
        valid_words(word_views(targets@)),
    ensures
        successes == solved_count(word_views(words@), word_views(targets@)),
        successes <= targets@.len(),
{
    let ghost all = word_views(words@);
    let ghost hidden = word_views(targets@);
    let mut successes: usize = 0;
    let mut done: usize = 0;
    while done < targets.len()
        invariant
            done <= targets@.len(),
            all == word_views(words@),
            hidden == word_views(targets@),
            valid_words(all),
            valid_words(hidden),
            successes == solved_count(all, hidden.take(done as int)),
            successes <= done,
        decreases targets@.len() - done,
    {
        proof {
            assert(hidden.take(done + 1).drop_last() =~= hidden.take(done as int));
            assert(hidden.take(done + 1).last() == targets@[done as int]@);
            assert(valid_word(hidden[done as int]));
        }
        let outcome = run_trial(copy_words(words), &targets[done]);
        if outcome.solved {
            successes += 1;
        }
        done += 1;
    }
    assert(hidden.take(targets@.len() as int) =~= hidden);
    successes
}

/// Draws `trials` hidden words from `words` at random.
pub fn draw_targets(words: &Vec<String>, trials: usize) -> (targets: Vec<String>)
    requires
        words@.len() > 0,
    ensures
        targets@.len() == trials,
        forall|k: int|
            0 <= k < trials ==> word_views(words@).contains(#[trigger] word_views(targets@)[k]),
{
    let mut targets: Vec<String> = Vec::new();
    let mut done: usize = 0;
    while done < trials
        invariant
            done <= trials,
            words@.len() > 0,
            targets@.len() == done,
            forall|k: int|
                0 <= k < done ==> word_views(words@).contains(#[trigger] word_views(targets@)[k]),
        decreases trials - done,
    {
        let ghost drawn = word_views(targets@);
        let final_word = get_random_word(words);
        targets.push(final_word);
        assert forall|k: int| 0 <= k < done + 1 implies word_views(words@).contains(
            #[trigger] word_views(targets@)[k],
        ) by {
            if k < done {
                assert(word_views(targets@)[k] == drawn[k]);
            }
        }
        done += 1;
    }
    targets
}

/// Runs `trials` trials, each against a hidden word drawn at random from
/// `words` and with all of `words` as its candidates, and counts those that
/// find their word. Whatever the draws, the result is the count for some
/// `trials` hidden words of the list.
pub fn run_simulation(words: &Vec<String>, trials: usize) -> (successes: usize)
    requires
        words@.len() > 0,
        valid_words(word_views(words@)),
    ensures
        successes <= trials,
        exists|targets: Seq<Seq<char>>|
            {
                &&& targets.len() == trials
                &&& forall|k: int|
                    0 <= k < trials ==> word_views(words@).contains(#[trigger] targets[k])
                &&& successes == #[trigger] solved_count(word_views(words@), targets)
            },
{
    let targets = draw_targets(words, trials);
    proof {
        let all = word_views(words@);
        let hidden = word_views(targets@);
        assert forall|k: int| 0 <= k < hidden.len() implies valid_word(#[trigger] hidden[k]) by {
            assert(all.contains(hidden[k]));
            let at = choose|at: int| 0 <= at < all.len() && all[at] == hidden[k];
            assert(valid_word(all[at]));
        }
    }
    let successes = run_trials(words, &targets);
    assert(successes == solved_count(word_views(words@), word_views(targets@)));
    successes
}

/// A trial whose hidden word is among the candidates fails only after all of
/// its guesses, as long as no candidate overshoots the hidden word: what is
/// known stays true of the hidden word, so the filter never removes it.
pub proof fn lemma_trial_uses_its_rounds(
    words: Seq<Seq<char>>,
    target: Seq<char>,
    known: Knowledge,
    rounds_left: nat,
)
    requires
        valid_words(words),
        valid_word(target),
        words.contains(target),
        agrees(known, target),
        all_caps_agree(known, target),
        forall|k: int| 0 <= k < words.len() ==> !overshoots(target, #[trigger] words[k]),
    ensures
        trial_from(words, target, known, rounds_left).0 || trial_from(
            words,
            target,
            known,
            rounds_left,
        ).1 == rounds_left,
    decreases rounds_left,
{
    if rounds_left > 0 {
        assert(words.len() > 0);
        let scores = scores_of(words, frequencies_of(words));
        lemma_best_below(scores, words.len() as int);
        let at = best_below(scores, words.len() as int);
        let guess = next_guess(words);
        assert(guess == words[at]);
        assert(valid_word(words[at]));
        if guess != target {
            let learned = knowledge_after(known, target, guess);
            let rest = survivors(words, learned);
            lemma_target_survives(words, known, target, guess);
            let test = keeps(learned.letters, learned.buffer, learned.present);
            assert forall|k: int| 0 <= k < rest.len() implies valid_word(#[trigger] rest[k])
                && !overshoots(target, rest[k]) by {
                assert(rest.contains(rest[k]));
                words.lemma_filter_contains_rev(test, rest[k]);
                let from = choose|from: int| 0 <= from < words.len() && words[from] == rest[k];
                assert(valid_word(words[from]));
            }
            lemma_trial_uses_its_rounds(rest, target, learned, (rounds_left - 1) as nat);
        }
    }
}

} // verus!
