use wordle_solver::feedback::{compare, UNSET};
use wordle_solver::filter::{filter_words, is_consistent};
use wordle_solver::letters::{get_letters, ConstraintStore, LetterSet};
use wordle_solver::target::final_info;
use wordle_solver::trial::new_guess_buffer;

fn list(words: &[&str]) -> Vec<String> {
    words.iter().map(|w| w.to_string()).collect()
}

struct Known {
    letters: ConstraintStore,
    final_guess: Vec<char>,
    in_word: LetterSet,
}

fn after(target: &str, guesses: &[&str]) -> Known {
    let mut known =
        Known { letters: get_letters(), final_guess: new_guess_buffer(), in_word: LetterSet::new() };
    let info = final_info(&target.to_string());
    for guess in guesses {
        compare(
            guess.to_string(),
            &mut known.letters,
            &info,
            &mut known.final_guess,
            &mut known.in_word,
        );
    }
    known
}

fn filtered(known: &Known, words: &[&str]) -> Vec<String> {
    filter_words(&known.letters, list(words), &known.final_guess, &known.in_word)
}

#[test]
fn nothing_known_keeps_every_word() {
    let known = after("apple", &[]);
    assert_eq!(filtered(&known, &["apple", "angle", "ankle"]), list(&["apple", "angle", "ankle"]));
    assert_eq!(filtered(&known, &[]), list(&[]));
}

#[test]
fn angle_against_apple_leaves_apple() {
    let known = after("apple", &["angle"]);
    assert_eq!(filtered(&known, &["apple", "angle", "ankle"]), list(&["apple"]));
}

#[test]
fn survivors_come_from_the_input_in_its_order() {
    let known = after("might", &["bight"]);
    let words = ["wight", "bight", "might", "eight", "light", "bible", "night"];
    let kept = filtered(&known, &words);
    assert_eq!(kept, list(&["wight", "might", "eight", "light", "night"]));
    let mut from = 0;
    for word in &kept {
        let at = words[from..].iter().position(|w| w == word);
        assert!(at.is_some());
        from += at.unwrap() + 1;
    }
}

#[test]
fn a_set_slot_admits_its_letter_only() {
    let known = after("apple", &["angle"]);
    assert_eq!(known.final_guess, vec!['a', UNSET, UNSET, 'l', 'e']);
    assert!(is_consistent(&"apple".to_string(), &known.letters, &known.final_guess, &known.in_word));
    assert!(is_consistent(&"ample".to_string(), &known.letters, &known.final_guess, &known.in_word));
    // `e` at position 0 where the slot holds `a`.
    assert!(!is_consistent(&"eball".to_string(), &known.letters, &known.final_guess, &known.in_word));
}

#[test]
fn an_absent_letter_rejects() {
    let known = after("apple", &["angle"]);
    // `n` is absent.
    assert!(!is_consistent(&"ankle".to_string(), &known.letters, &known.final_guess, &known.in_word));
    assert_eq!(filtered(&known, &["anele", "amble", "addle"]), list(&["amble", "addle"]));
}

#[test]
fn an_excluded_position_rejects_while_none_is_confirmed() {
    let known = after("apple", &["lemon"]);
    // `l` was tried at position 0 and `e` at position 1; neither has a
    // confirmed position.
    assert_eq!(
        filtered(&known, &["large", "eagle", "leave", "ladle", "aisle", "apple", "plead"]),
        list(&["eagle", "aisle", "apple", "plead"])
    );
}

#[test]
fn an_excluded_position_is_ignored_once_one_is_confirmed() {
    let known = after("apple", &["lemon", "angle"]);
    let l = known.letters.get('l');
    assert!(l.is_excluded_at(0));
    assert!(l.has_confirmed());
    // Position 0 holds `a` in the buffer, so a word with `l` there goes for
    // that reason; `e` is confirmed at 4 and may now stand at 1 again.
    assert!(is_consistent(&"aelle".to_string(), &known.letters, &known.final_guess, &known.in_word));
    assert!(!is_consistent(&"lalle".to_string(), &known.letters, &known.final_guess, &known.in_word));
}

#[test]
fn a_word_must_hold_every_present_letter() {
    let known = after("apple", &["lemon"]);
    assert!(known.in_word.contains('l'));
    assert!(known.in_word.contains('e'));
    assert_eq!(filtered(&known, &["apple", "aisle", "abide", "atoll"]), list(&["apple", "aisle"]));
}

#[test]
fn a_forbidden_double_rejects() {
    let known = after("paint", &["apple"]);
    assert!(!known.letters.get('p').double_allowed());
    // `pampa` agrees with everything but the cap: it holds `p` twice.
    assert_eq!(filtered(&known, &["paint", "pampa", "inapt"]), list(&["paint", "inapt"]));
}

#[test]
fn a_forbidden_triple_rejects() {
    let known = after("sweet", &["geese"]);
    let e = known.letters.get('e');
    assert!(!e.triple_allowed());
    assert!(e.double_allowed());
    assert_eq!(filtered(&known, &["sweet", "tweet", "sheet"]), list(&["sweet", "sheet"]));
    let words = ["emcee", "eerie", "sweet"];
    assert_eq!(filtered(&known, &words), list(&["sweet"]));
}

#[test]
fn repetition_of_a_letter_of_unknown_membership_is_free() {
    let known = after("apple", &["angle"]);
    assert!(is_consistent(&"apple".to_string(), &known.letters, &known.final_guess, &known.in_word));
    assert_eq!(filtered(&known, &["apple", "addle"]), list(&["apple", "addle"]));
}

#[test]
fn the_hidden_word_survives_the_feedback_on_any_guess() {
    let words = [
        "crane", "slate", "trace", "crate", "stare", "arise", "raise", "irate", "least", "steal",
        "sweet", "sheep", "geese", "eerie", "emcee", "tweet", "apple", "angle", "ankle", "paint",
        "inapt", "pampa", "mamma", "daddy", "added",
    ];
    for target in words {
        for first in words {
            for second in words {
                let known = after(target, &[first, second]);
                let kept = filtered(&known, &words);
                assert!(kept.contains(&target.to_string()));
                assert!(kept.len() <= words.len());
            }
        }
    }
}
