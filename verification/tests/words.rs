use wordle_solver::target::final_info;
use wordle_solver::words::{
    char_at, count_letter, is_valid_word, validate_words, WordListError, WORD_LEN,
};

fn list(words: &[&str]) -> Vec<String> {
    words.iter().map(|w| w.to_string()).collect()
}

#[test]
fn a_word_has_five_lowercase_letters() {
    assert_eq!(WORD_LEN, 5);
    assert!(is_valid_word(&"apple".to_string()));
    assert!(is_valid_word(&"zzzzz".to_string()));
    assert!(!is_valid_word(&"".to_string()));
    assert!(!is_valid_word(&"appl".to_string()));
    assert!(!is_valid_word(&"apples".to_string()));
    assert!(!is_valid_word(&"Apple".to_string()));
    assert!(!is_valid_word(&"app1e".to_string()));
    assert!(!is_valid_word(&"app e".to_string()));
    assert!(!is_valid_word(&"appl\u{e9}".to_string()));
    assert!(!is_valid_word(&"a{ple".to_string()));
    assert!(!is_valid_word(&"a`ple".to_string()));
}

#[test]
fn a_good_list_is_accepted() {
    assert_eq!(validate_words(&list(&["apple"])), Ok(()));
    assert_eq!(validate_words(&list(&["apple", "angle", "ankle"])), Ok(()));
}

#[test]
fn an_empty_list_is_rejected() {
    assert_eq!(validate_words(&list(&[])), Err(WordListError::Empty));
}

#[test]
fn the_first_malformed_word_is_named() {
    assert_eq!(
        validate_words(&list(&["apple", "angles", "ankle", "x"])),
        Err(WordListError::Malformed { index: 1 })
    );
    assert_eq!(validate_words(&list(&["Apple"])), Err(WordListError::Malformed { index: 0 }));
    assert_eq!(
        validate_words(&list(&["apple", "angle", ""])),
        Err(WordListError::Malformed { index: 2 })
    );
}

#[test]
fn letters_are_counted_and_found() {
    let word = "sweet".to_string();
    assert_eq!(char_at(&word, 0), 's');
    assert_eq!(char_at(&word, 4), 't');
    assert_eq!(count_letter(&word, 'e'), 2);
    assert_eq!(count_letter(&word, 's'), 1);
    assert_eq!(count_letter(&word, 'z'), 0);
    assert_eq!(count_letter(&"eerie".to_string(), 'e'), 3);
}

#[test]
fn the_hidden_word_knows_where_its_letters_stand() {
    let info = final_info(&"sweet".to_string());
    assert_eq!(info.word(), "sweet");
    assert_eq!(info.indices_of('e'), &vec![2, 3]);
    assert_eq!(info.indices_of('s'), &vec![0]);
    assert_eq!(info.indices_of('t'), &vec![4]);
    assert_eq!(info.indices_of('z'), &Vec::<usize>::new());
    assert_eq!(info.count('e'), 2);
    assert_eq!(info.count('w'), 1);
    assert_eq!(info.count('a'), 0);
    assert_eq!(info.count('!'), 0);
    assert!(info.contains('w'));
    assert!(!info.contains('a'));
    assert!(!info.contains('E'));
    assert!(info.has_at('e', 2));
    assert!(info.has_at('e', 3));
    assert!(!info.has_at('e', 4));
    assert!(!info.has_at('e', 7));
    assert!(!info.has_at('a', 0));
    let info = final_info(&"eerie".to_string());
    assert_eq!(info.indices_of('e'), &vec![0, 1, 4]);
}
