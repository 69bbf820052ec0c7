use wordle_solver::feedback::{compare, UNSET};
use wordle_solver::letters::{get_letters, ConstraintStore, LetterSet, Membership};
use wordle_solver::target::final_info;
use wordle_solver::trial::new_guess_buffer;

struct State {
    letters: ConstraintStore,
    final_guess: Vec<char>,
    in_word: LetterSet,
}

fn fresh() -> State {
    State { letters: get_letters(), final_guess: new_guess_buffer(), in_word: LetterSet::new() }
}

fn feed(state: &mut State, target: &str, guess: &str) -> bool {
    let info = final_info(&target.to_string());
    compare(
        guess.to_string(),
        &mut state.letters,
        &info,
        &mut state.final_guess,
        &mut state.in_word,
    )
}

#[test]
fn fresh_store_knows_nothing() {
    let letters = get_letters();
    for c in 'a'..='z' {
        let info = letters.get(c);
        assert_eq!(info.membership(), Membership::Unknown);
        assert!(info.double_allowed());
        assert!(info.triple_allowed());
        assert!(!info.has_confirmed());
        for i in 0..5 {
            assert!(!info.is_confirmed_at(i));
            assert!(!info.is_excluded_at(i));
        }
    }
}

#[test]
fn angle_against_apple() {
    let mut state = fresh();
    let is_word = feed(&mut state, "apple", "angle");
    assert!(!is_word);

    let a = state.letters.get('a');
    assert_eq!(a.membership(), Membership::Present);
    assert!(a.is_confirmed_at(0));
    assert!(!a.is_excluded_at(0));

    assert_eq!(state.letters.get('n').membership(), Membership::Absent);
    assert_eq!(state.letters.get('g').membership(), Membership::Absent);

    // Both words hold `l` at position 3, so the position is confirmed for it.
    let l = state.letters.get('l');
    assert_eq!(l.membership(), Membership::Present);
    assert!(l.is_confirmed_at(3));
    assert!(!l.is_excluded_at(3));

    let e = state.letters.get('e');
    assert_eq!(e.membership(), Membership::Present);
    assert!(e.is_confirmed_at(4));

    assert_eq!(state.letters.get('p').membership(), Membership::Unknown);
    assert_eq!(state.final_guess, vec!['a', UNSET, UNSET, 'l', 'e']);
    for c in 'a'..='z' {
        assert_eq!(state.in_word.contains(c), c == 'a' || c == 'l' || c == 'e');
    }
}

#[test]
fn misplaced_letter_is_excluded_where_it_was_tried() {
    let mut state = fresh();
    assert!(!feed(&mut state, "apple", "lemon"));
    let l = state.letters.get('l');
    assert_eq!(l.membership(), Membership::Present);
    assert!(l.is_excluded_at(0));
    assert!(!l.is_confirmed_at(0));
    assert!(!l.has_confirmed());
    let e = state.letters.get('e');
    assert_eq!(e.membership(), Membership::Present);
    assert!(e.is_excluded_at(1));
    assert_eq!(state.letters.get('m').membership(), Membership::Absent);
    assert_eq!(state.letters.get('o').membership(), Membership::Absent);
    assert_eq!(state.letters.get('n').membership(), Membership::Absent);
    assert_eq!(state.final_guess, vec![UNSET; 5]);
    assert!(state.in_word.contains('l'));
    assert!(state.in_word.contains('e'));
    assert!(!state.in_word.contains('m'));
}

#[test]
fn exact_match_is_reported_for_the_hidden_word_only() {
    let mut state = fresh();
    assert!(feed(&mut state, "apple", "apple"));
    assert_eq!(state.final_guess, vec!['a', 'p', 'p', 'l', 'e']);
    let p = state.letters.get('p');
    assert_eq!(p.membership(), Membership::Present);
    assert!(p.is_confirmed_at(1));
    assert!(p.is_confirmed_at(2));

    let mut state = fresh();
    assert!(!feed(&mut state, "apple", "ample"));
    let mut state = fresh();
    assert!(!feed(&mut state, "apple", "appel"));
    let mut state = fresh();
    assert!(!feed(&mut state, "sweet", "tweet"));
}

#[test]
fn sheep_against_sweet_keeps_double_e() {
    let mut state = fresh();
    assert!(!feed(&mut state, "sweet", "sheep"));
    let e = state.letters.get('e');
    assert_eq!(e.membership(), Membership::Present);
    assert!(e.double_allowed());
    assert!(e.triple_allowed());
    assert!(e.is_confirmed_at(2));
    assert!(e.is_confirmed_at(3));
}

#[test]
fn geese_against_sweet_forbids_triple_e() {
    let mut state = fresh();
    assert!(!feed(&mut state, "sweet", "geese"));
    let e = state.letters.get('e');
    assert_eq!(e.membership(), Membership::Present);
    assert!(!e.triple_allowed());
    assert!(e.double_allowed());
    assert!(e.is_excluded_at(1));
    assert!(e.is_confirmed_at(2));
    assert!(e.is_excluded_at(4));
}

#[test]
fn two_in_guess_one_in_target_forbids_double_and_triple() {
    let mut state = fresh();
    assert!(!feed(&mut state, "angle", "apple"));
    // `p` is absent from the hidden word: its caps stay.
    let p = state.letters.get('p');
    assert_eq!(p.membership(), Membership::Absent);
    assert!(p.double_allowed());
    assert!(p.triple_allowed());

    let mut state = fresh();
    assert!(!feed(&mut state, "paint", "apple"));
    let p = state.letters.get('p');
    assert_eq!(p.membership(), Membership::Present);
    assert!(!p.double_allowed());
    assert!(!p.triple_allowed());
}

#[test]
fn three_in_guess_three_in_target_forbids_double_only() {
    let mut state = fresh();
    assert!(!feed(&mut state, "eerie", "emcee"));
    let e = state.letters.get('e');
    assert!(!e.double_allowed());
    assert!(e.triple_allowed());
}

#[test]
fn three_in_guess_one_in_target_forbids_triple_only() {
    let mut state = fresh();
    assert!(!feed(&mut state, "bread", "eerie"));
    let e = state.letters.get('e');
    assert!(e.double_allowed());
    assert!(!e.triple_allowed());
}

#[test]
fn one_in_guess_two_in_target_changes_no_cap() {
    let mut state = fresh();
    assert!(!feed(&mut state, "sweet", "bread"));
    let e = state.letters.get('e');
    assert_eq!(e.membership(), Membership::Present);
    assert!(e.double_allowed());
    assert!(e.triple_allowed());
}

#[test]
fn caps_never_come_back() {
    let mut state = fresh();
    feed(&mut state, "sweet", "geese");
    assert!(!state.letters.get('e').triple_allowed());
    feed(&mut state, "sweet", "sheep");
    assert!(!state.letters.get('e').triple_allowed());
    assert!(state.letters.get('e').double_allowed());
    feed(&mut state, "sweet", "sweet");
    assert!(!state.letters.get('e').triple_allowed());

    let mut state = fresh();
    feed(&mut state, "paint", "apple");
    feed(&mut state, "paint", "point");
    let p = state.letters.get('p');
    assert!(!p.double_allowed());
    assert!(!p.triple_allowed());
}

#[test]
fn set_slots_of_the_buffer_stay() {
    let mut state = fresh();
    feed(&mut state, "apple", "angle");
    assert_eq!(state.final_guess, vec!['a', UNSET, UNSET, 'l', 'e']);
    feed(&mut state, "apple", "lemon");
    assert_eq!(state.final_guess, vec!['a', UNSET, UNSET, 'l', 'e']);
    feed(&mut state, "apple", "spite");
    assert_eq!(state.final_guess, vec!['a', 'p', UNSET, 'l', 'e']);
    feed(&mut state, "apple", "zzzzz");
    assert_eq!(state.final_guess, vec!['a', 'p', UNSET, 'l', 'e']);
}

#[test]
fn positions_and_present_letters_only_grow() {
    let mut state = fresh();
    feed(&mut state, "apple", "lemon");
    feed(&mut state, "apple", "angle");
    let l = state.letters.get('l');
    assert!(l.is_excluded_at(0));
    assert!(l.is_confirmed_at(3));
    assert!(l.has_confirmed());
    assert!(state.in_word.contains('l'));
    assert!(state.in_word.contains('e'));
    assert!(state.in_word.contains('a'));
}
