use wordle_solver::frequency::make_probabilities;
use wordle_solver::ranking::{
    grab_best_word, occurrence_number_at, score_word, valid_word_prob, SCORE_SCALE,
};

fn list(words: &[&str]) -> Vec<String> {
    words.iter().map(|w| w.to_string()).collect()
}

fn ranked(words: &[&str]) -> Vec<(String, u128)> {
    let words = list(words);
    valid_word_prob(&words, make_probabilities(&words))
}

fn entries(pairs: &[(&str, u128)]) -> Vec<(String, u128)> {
    pairs.iter().map(|(w, s)| (w.to_string(), *s)).collect()
}

#[test]
fn counts_are_taken_per_letter_and_position() {
    let words = list(&["apple", "angle", "ankle"]);
    let table = make_probabilities(&words);
    assert_eq!(table.total(), 3);
    assert_eq!(table.count('a', 0), 3);
    assert_eq!(table.count('a', 1), 0);
    assert_eq!(table.count('p', 1), 1);
    assert_eq!(table.count('n', 1), 2);
    assert_eq!(table.count('p', 2), 1);
    assert_eq!(table.count('g', 2), 1);
    assert_eq!(table.count('k', 2), 1);
    assert_eq!(table.count('l', 3), 3);
    assert_eq!(table.count('e', 4), 3);
    assert_eq!(table.count('e', 0), 0);
    assert_eq!(table.count('z', 0), 0);
    assert_eq!(table.count('a', 5), 0);
    assert_eq!(table.count('A', 0), 0);
    for c in 'a'..='z' {
        assert_eq!(table.has_entry(c), "apnglke".contains(c));
    }
    assert!(!table.has_entry('?'));
}

#[test]
fn counts_at_a_position_add_up_to_the_number_of_words() {
    let words = list(&["sweet", "sheep", "geese", "eerie", "emcee", "tweet"]);
    let table = make_probabilities(&words);
    assert_eq!(table.total(), 6);
    for i in 0..5 {
        let sum: usize = ('a'..='z').map(|c| table.count(c, i)).sum();
        assert_eq!(sum, 6);
    }
    assert_eq!(table.count('e', 0), 2);
    assert_eq!(table.count('e', 2), 4);
    assert_eq!(table.count('e', 3), 4);
    assert_eq!(table.count('e', 4), 3);
}

#[test]
fn an_empty_list_has_an_empty_table() {
    let table = make_probabilities(&list(&[]));
    assert_eq!(table.total(), 0);
    for c in 'a'..='z' {
        assert!(!table.has_entry(c));
        assert_eq!(table.count(c, 0), 0);
    }
    assert_eq!(ranked(&[]), entries(&[]));
}

#[test]
fn repeats_of_a_letter_are_numbered() {
    let word = "eerie".to_string();
    assert_eq!(occurrence_number_at(&word, 0), 1);
    assert_eq!(occurrence_number_at(&word, 1), 2);
    assert_eq!(occurrence_number_at(&word, 2), 1);
    assert_eq!(occurrence_number_at(&word, 3), 1);
    assert_eq!(occurrence_number_at(&word, 4), 3);
    let word = "zzzzz".to_string();
    for i in 0..5 {
        assert_eq!(occurrence_number_at(&word, i), i + 1);
    }
}

#[test]
fn a_repeat_earns_its_share_only() {
    assert_eq!(SCORE_SCALE, 60);
    let words = list(&["apple", "angle", "ankle"]);
    let table = make_probabilities(&words);
    // a: 3, p: 1, second p: 1/2, l: 3, e: 3, each over 3 words, in sixtieths.
    assert_eq!(score_word(&words[0], &table), 180 + 60 + 30 + 180 + 180);
    assert_eq!(score_word(&words[1], &table), 180 + 120 + 60 + 180 + 180);
    assert_eq!(score_word(&words[2], &table), 180 + 120 + 60 + 180 + 180);
    // A word outside the list earns what its letters earn where they stand.
    assert_eq!(score_word(&"zzzze".to_string(), &table), 180);
    assert_eq!(score_word(&"eeeee".to_string(), &table), 3 * 12);
    assert_eq!(score_word(&"zzzzz".to_string(), &table), 0);

    let words = list(&["zzzzz"]);
    let table = make_probabilities(&words);
    assert_eq!(score_word(&words[0], &table), 60 + 30 + 20 + 15 + 12);
}

#[test]
fn words_are_ranked_by_descending_score() {
    assert_eq!(
        ranked(&["apple", "angle", "ankle"]),
        entries(&[("angle", 720), ("ankle", 720), ("apple", 630)])
    );
    assert_eq!(
        ranked(&["apple", "ankle", "angle"]),
        entries(&[("ankle", 720), ("angle", 720), ("apple", 630)])
    );
}

#[test]
fn equal_scores_keep_the_order_of_the_list() {
    let words = ["bight", "eight", "fight", "light", "might", "night", "right", "sight"];
    let ranking = ranked(&words);
    assert_eq!(ranking.len(), 8);
    for (entry, word) in ranking.iter().zip(words.iter()) {
        assert_eq!(entry.0, *word);
        assert_eq!(entry.1, 60 + 4 * 8 * 60);
    }
    let twice = ranked(&["apple", "apple", "apple"]);
    assert_eq!(twice, entries(&[("apple", 810), ("apple", 810), ("apple", 810)]));
}

#[test]
fn a_longer_list_is_ranked_like_a_stable_sort() {
    let words = [
        "crane", "slate", "trace", "crate", "stare", "arise", "raise", "irate", "least", "steal",
        "tales", "teals", "stale", "caret", "cater", "react", "recta", "earls", "lares", "laser",
        "reals", "seral", "aster", "rates", "tares", "tears", "resat",
    ];
    let list = list(&words);
    let table = make_probabilities(&list);
    let mut expected: Vec<(String, u128)> =
        list.iter().map(|w| (w.clone(), score_word(w, &table))).collect();
    expected.sort_by(|a, b| b.1.cmp(&a.1));
    assert_eq!(valid_word_prob(&list, table), expected);
}

#[test]
fn the_best_word_is_the_first_of_the_ranking() {
    assert_eq!(grab_best_word(ranked(&["apple", "angle", "ankle"])), "angle");
    assert_eq!(grab_best_word(ranked(&["apple", "ankle", "angle"])), "ankle");
    assert_eq!(grab_best_word(entries(&[("crane", 3), ("slate", 9)])), "crane");
    assert_eq!(grab_best_word(entries(&[("slate", 0)])), "slate");
}
