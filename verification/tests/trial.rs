use wordle_solver::feedback::UNSET;
use wordle_solver::random::{get_random_word, pick_word};
use wordle_solver::trial::{
    draw_targets, new_guess_buffer, run_simulation, run_trial, run_trials, TrialOutcome,
    ROUND_LIMIT,
};

fn list(words: &[&str]) -> Vec<String> {
    words.iter().map(|w| w.to_string()).collect()
}

#[test]
fn a_new_buffer_has_five_unset_slots() {
    assert_eq!(new_guess_buffer(), vec![UNSET; 5]);
    assert_eq!(UNSET, '\0');
}

#[test]
fn a_drawn_word_is_a_word_of_the_list() {
    let words = list(&["apple", "angle", "ankle"]);
    for _ in 0..200 {
        let word = get_random_word(&words);
        assert!(words.contains(&word));
    }
}

#[test]
fn a_draw_from_one_word_gives_that_word() {
    let words = list(&["apple"]);
    for _ in 0..50 {
        assert_eq!(get_random_word(&words), "apple");
    }
}

#[test]
fn every_word_of_a_short_list_is_drawn_in_time() {
    let words = list(&["apple", "angle"]);
    let mut seen = [false, false];
    for _ in 0..2000 {
        let word = get_random_word(&words);
        seen[words.iter().position(|w| *w == word).unwrap()] = true;
    }
    assert_eq!(seen, [true, true]);
}

#[test]
fn a_word_is_picked_by_its_place() {
    let words = list(&["apple", "angle", "ankle"]);
    assert_eq!(pick_word(&words, 0), "apple");
    assert_eq!(pick_word(&words, 2), "ankle");
}

#[test]
fn the_first_guess_can_be_the_hidden_word() {
    let outcome = run_trial(list(&["apple", "angle", "ankle"]), &"angle".to_string());
    assert_eq!(outcome, TrialOutcome { solved: true, rounds: 1 });
}

#[test]
fn feedback_on_angle_leads_to_apple() {
    let outcome = run_trial(list(&["apple", "angle", "ankle"]), &"apple".to_string());
    assert_eq!(outcome, TrialOutcome { solved: true, rounds: 2 });
    let outcome = run_trial(list(&["apple", "angle", "ankle"]), &"ankle".to_string());
    assert_eq!(outcome, TrialOutcome { solved: true, rounds: 2 });
}

#[test]
fn a_trial_stops_at_the_round_limit() {
    assert_eq!(ROUND_LIMIT, 6);
    let words = [
        "bight", "eight", "fight", "light", "might", "night", "right", "sight", "tight", "wight",
    ];
    // Every guess differs from the hidden word in its first letter only, so
    // each round removes one candidate. `tight` is ranked last: its second
    // `t` earns half of what the `t` of the other words earns.
    for (place, word) in words.iter().enumerate() {
        let outcome = run_trial(list(&words), &word.to_string());
        if place < ROUND_LIMIT {
            assert_eq!(outcome, TrialOutcome { solved: true, rounds: place + 1 });
        } else {
            assert_eq!(outcome, TrialOutcome { solved: false, rounds: ROUND_LIMIT });
        }
    }
}

#[test]
fn a_trial_without_candidates_makes_no_guess() {
    let outcome = run_trial(list(&[]), &"apple".to_string());
    assert_eq!(outcome, TrialOutcome { solved: false, rounds: 0 });
}

#[test]
fn a_trial_ends_when_no_candidate_is_left() {
    let outcome = run_trial(list(&["apple"]), &"angle".to_string());
    assert_eq!(outcome, TrialOutcome { solved: false, rounds: 1 });
}

#[test]
fn a_simulation_counts_the_trials_that_succeed() {
    assert_eq!(run_simulation(&list(&["apple"]), 25), 25);
    assert_eq!(run_simulation(&list(&["apple", "angle", "ankle"]), 40), 40);
    assert_eq!(run_simulation(&list(&["apple", "angle", "ankle"]), 0), 0);
    let words = [
        "bight", "eight", "fight", "light", "might", "night", "right", "sight", "tight", "wight",
    ];
    let successes = run_simulation(&list(&words), 60);
    assert!(successes <= 60);
}

#[test]
fn trials_against_given_words_are_counted() {
    let words = list(&["apple", "angle", "ankle"]);
    assert_eq!(run_trials(&words, &list(&["apple", "angle", "ankle", "apple"])), 4);
    assert_eq!(run_trials(&words, &list(&[])), 0);
    // `amble` is not a candidate: no guess can be it.
    assert_eq!(run_trials(&words, &list(&["amble", "apple", "amble"])), 1);

    let words = list(&[
        "bight", "eight", "fight", "light", "might", "night", "right", "sight", "tight", "wight",
    ]);
    assert_eq!(run_trials(&words, &list(&["bight", "wight", "night", "sight"])), 2);
}

#[test]
fn targets_are_drawn_from_the_list() {
    let words = list(&["apple", "angle", "ankle"]);
    let targets = draw_targets(&words, 300);
    assert_eq!(targets.len(), 300);
    for target in &targets {
        assert!(words.contains(target));
    }
    assert_eq!(draw_targets(&words, 0), list(&[]));
    assert_eq!(draw_targets(&list(&["apple"]), 3), list(&["apple", "apple", "apple"]));
}

#[test]
fn a_failed_trial_has_made_all_its_guesses() {
    let words = [
        "crane", "slate", "trace", "crate", "stare", "arise", "raise", "irate", "least", "steal",
        "tales", "teals", "stale", "caret", "cater", "react", "recta", "earls", "lares", "laser",
        "reals", "seral", "aster", "rates", "tares", "tears", "resat", "sweet", "sheep", "geese",
        "eerie", "emcee", "tweet", "apple", "angle", "ankle", "paint", "inapt", "pampa",
    ];
    for word in words {
        let outcome = run_trial(list(&words), &word.to_string());
        assert!(outcome.rounds >= 1);
        assert!(outcome.rounds <= ROUND_LIMIT);
        assert!(outcome.solved || outcome.rounds == ROUND_LIMIT);
    }
}
