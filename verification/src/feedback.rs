//! The feedback on a guess: what comparing it with the hidden word shows
//! about each letter, and whether the guess is the hidden word.

use vstd::prelude::*;
use crate::alphabet::is_letter;
use crate::letters::{ConstraintStore, LetterFacts, LetterSet, Membership};
use crate::target::TargetInfo;
use crate::words::{char_at, count_letter, lemma_occurrences, occurrences, valid_word, WORD_LEN};

verus! {

/// The content of a slot of the guess buffer whose letter is not known yet.
pub const UNSET: char = '\0';

/// The positions at which `guess` holds `c` and `target` holds it too.
pub open spec fn hits(target: Seq<char>, guess: Seq<char>, c: char) -> Set<int> {
    Set::new(|i: int| 0 <= i < guess.len() && guess[i] == c && target[i] == c)
}

/// The positions at which `guess` holds `c` and `target` holds another
/// letter.
pub open spec fn misses(target: Seq<char>, guess: Seq<char>, c: char) -> Set<int> {
    Set::new(|i: int| 0 <= i < guess.len() && guess[i] == c && target[i] != c)
}

/// The feedback rules out that `target` holds `c` exactly twice: `guess`
/// holds it twice and `target` fewer times, or `guess` holds it three times
/// and `target` no fewer.
pub open spec fn loses_double(target: Seq<char>, guess: Seq<char>, c: char) -> bool {
    let g = occurrences(guess, c);
    let t = occurrences(target, c);
    g > 0 && t > 0 && ((g > t && g == 2) || (g <= t && g == 3))
}

/// The feedback rules out that `target` holds `c` exactly three times:
/// `guess` holds it more often than `target` does.
pub open spec fn loses_triple(target: Seq<char>, guess: Seq<char>, c: char) -> bool {
    let g = occurrences(guess, c);
    let t = occurrences(target, c);
    g > 0 && t > 0 && g > t
}

/// The facts about the letter `c` once the feedback on `guess` has been
/// added to the facts `before`.
///
/// A letter that `guess` does not hold keeps its facts. One that `target`
/// does not hold becomes absent. One that both hold becomes present; the
/// positions where both hold it are confirmed, the other positions where
/// `guess` holds it are excluded, and it may lose the right to occur twice or
/// three times.
pub open spec fn facts_after(
    before: LetterFacts,
    target: Seq<char>,
    guess: Seq<char>,
    c: char,
) -> LetterFacts {
    if !guess.contains(c) {
        before
    } else if !target.contains(c) {
        LetterFacts { membership: Membership::Absent, ..before }
    } else {
        LetterFacts {
            membership: Membership::Present,
            confirmed: before.confirmed.union(hits(target, guess, c)),
            excluded: before.excluded.union(misses(target, guess, c)),
            double_allowed: before.double_allowed && !loses_double(target, guess, c),
            triple_allowed: before.triple_allowed && !loses_triple(target, guess, c),
        }
    }
}

/// The store once the feedback on `guess` has been added.
pub open spec fn letters_after(
    before: Map<char, LetterFacts>,
    target: Seq<char>,
    guess: Seq<char>,
) -> Map<char, LetterFacts> {
    Map::new(|c: char| is_letter(c), |c: char| facts_after(before[c], target, guess, c))
}

/// The guess buffer once the feedback on `guess` has been added: a slot
/// where `guess` holds the letter of `target` holds that letter, every other
/// slot is as before.
pub open spec fn buffer_after(before: Seq<char>, target: Seq<char>, guess: Seq<char>) -> Seq<
    char,
> {
    Seq::new(before.len(), |i: int| if guess[i] == target[i] { guess[i] } else { before[i] })
}

/// The set of letters known to be present once the feedback on `guess` has
/// been added: the letters that `guess` and `target` both hold join it.
pub open spec fn present_after(before: Set<char>, target: Seq<char>, guess: Seq<char>) -> Set<
    char,
> {
    before.union(Set::new(|c: char| guess.contains(c) && target.contains(c)))
}

/// Every slot of the buffer that is set holds the letter of `target`.
pub open spec fn buffer_agrees(buffer: Seq<char>, target: Seq<char>) -> bool {
    forall|i: int| 0 <= i < buffer.len() && buffer[i] != UNSET ==> buffer[i] == target[i]
}

spec fn occurs_below(word: Seq<char>, c: char, n: int) -> bool {
    exists|j: int| 0 <= j < n && word[j] == c
}

/// The facts about `c` after the pass over the first `n` positions.
spec fn scanned_facts(
    before: LetterFacts,
    target: Seq<char>,
    guess: Seq<char>,
    c: char,
    n: int,
) -> LetterFacts {
    if !occurs_below(guess, c, n) {
        before
    } else if !target.contains(c) {
        LetterFacts { membership: Membership::Absent, ..before }
    } else {
        LetterFacts {
            membership: Membership::Present,
            confirmed: before.confirmed.union(
                Set::new(|i: int| 0 <= i < n && guess[i] == c && target[i] == c),
            ),
            excluded: before.excluded.union(
                Set::new(|i: int| 0 <= i < n && guess[i] == c && target[i] != c),
            ),
            ..before
        }
    }
}

/// The facts about `c` after the second pass has dealt with the letters at
/// the first `n` positions.
spec fn capped_facts(
    scanned: LetterFacts,
    target: Seq<char>,
    guess: Seq<char>,
    c: char,
    n: int,
) -> LetterFacts {
    if occurs_below(guess, c, n) {
        LetterFacts {
            double_allowed: scanned.double_allowed && !loses_double(target, guess, c),
            triple_allowed: scanned.triple_allowed && !loses_triple(target, guess, c),
            ..scanned
        }
    } else {
        scanned
    }
}

spec fn scanned_letters(
    before: Map<char, LetterFacts>,
    target: Seq<char>,
    guess: Seq<char>,
    n: int,
) -> Map<char, LetterFacts> {
    Map::new(|c: char| is_letter(c), |c: char| scanned_facts(before[c], target, guess, c, n))
}

spec fn capped_letters(
    before: Map<char, LetterFacts>,
    target: Seq<char>,
    guess: Seq<char>,
    n: int,
) -> Map<char, LetterFacts> {
    Map::new(
        |c: char| is_letter(c),
        |c: char|
            capped_facts(
                scanned_facts(before[c], target, guess, c, guess.len() as int),
                target,
                guess,
                c,
                n,
            ),
    )
}

spec fn scanned_buffer(before: Seq<char>, target: Seq<char>, guess: Seq<char>, n: int) -> Seq<
    char,
> {
    Seq::new(
        before.len(),
        |i: int| if i < n && guess[i] == target[i] { guess[i] } else { before[i] },
    )
}

spec fn scanned_present(before: Set<char>, target: Seq<char>, guess: Seq<char>, n: int) -> Set<
    char,
> {
    before.union(Set::new(|c: char| occurs_below(guess, c, n) && target.contains(c)))
}

/// One more position of the first pass: the letter `c` stands at position
/// `n` of `guess`, and `after` holds what the pass makes of the facts `now`.
proof fn lemma_scan_step(
    before: Map<char, LetterFacts>,
    target: Seq<char>,
    guess: Seq<char>,
    n: int,
    after: LetterFacts,
)
    requires
        valid_word(target),
        valid_word(guess),
        0 <= n < WORD_LEN,
        ({
            let c = guess[n];
            let now = scanned_facts(before[c], target, guess, c, n);
            if !target.contains(c) {
                after == (LetterFacts { membership: Membership::Absent, ..now })
            } else if target[n] == c {
                after == (LetterFacts {
                    membership: Membership::Present,
                    confirmed: now.confirmed.insert(n),
                    ..now
                })
            } else {
                after == (LetterFacts {
                    membership: Membership::Present,
                    excluded: now.excluded.insert(n),
                    ..now
                })
            }
        }),
    ensures
        scanned_letters(before, target, guess, n).insert(guess[n], after) == scanned_letters(
            before,
            target,
            guess,
            n + 1,
        ),
{
    let c = guess[n];
    let left = scanned_letters(before, target, guess, n).insert(c, after);
    let right = scanned_letters(before, target, guess, n + 1);
    assert(is_letter(c));
    assert forall|d: char| is_letter(d) implies #[trigger] left[d] =~= right[d] by {
        if d == c {
            assert(occurs_below(guess, c, n + 1));
        } else {
            if occurs_below(guess, d, n + 1) {
                let j = choose|j: int| 0 <= j < n + 1 && guess[j] == d;
                assert(0 <= j < n && guess[j] == d);
            }
            if occurs_below(guess, d, n) {
                let j = choose|j: int| 0 <= j < n && guess[j] == d;
                assert(0 <= j < n + 1 && guess[j] == d);
            }
        }
    }
    assert(left =~= right);
}

/// One more position of the second pass.
proof fn lemma_cap_step(
    before: Map<char, LetterFacts>,
    target: Seq<char>,
    guess: Seq<char>,
    n: int,
    after: LetterFacts,
)
    requires
        valid_word(target),
        valid_word(guess),
        0 <= n < WORD_LEN,
        ({
            let c = guess[n];
            let now = capped_letters(before, target, guess, n)[c];
            after == (LetterFacts {
                double_allowed: now.double_allowed && !loses_double(target, guess, c),
                triple_allowed: now.triple_allowed && !loses_triple(target, guess, c),
                ..now
            })
        }),
    ensures
        capped_letters(before, target, guess, n).insert(guess[n], after) == capped_letters(
            before,
            target,
            guess,
            n + 1,
        ),
{
    let c = guess[n];
    let left = capped_letters(before, target, guess, n).insert(c, after);
    let right = capped_letters(before, target, guess, n + 1);
    assert(is_letter(c));
    assert forall|d: char| is_letter(d) implies #[trigger] left[d] =~= right[d] by {
        if d == c {
            assert(occurs_below(guess, c, n + 1));
        } else {
            if occurs_below(guess, d, n + 1) {
                let j = choose|j: int| 0 <= j < n + 1 && guess[j] == d;
                assert(0 <= j < n && guess[j] == d);
            }
            if occurs_below(guess, d, n) {
                let j = choose|j: int| 0 <= j < n && guess[j] == d;
                assert(0 <= j < n + 1 && guess[j] == d);
            }
        }
    }
    assert(left =~= right);
}

/// After both passes the store is what `letters_after` says.
proof fn lemma_passes_done(before: Map<char, LetterFacts>, target: Seq<char>, guess: Seq<char>)
    requires
        valid_word(target),
        valid_word(guess),
    ensures
        capped_letters(before, target, guess, guess.len() as int) == letters_after(
            before,
            target,
            guess,
        ),
        scanned_letters(before, target, guess, guess.len() as int) == capped_letters(
            before,
            target,
            guess,
            0,
        ),
{
    let n = guess.len() as int;
    let left = capped_letters(before, target, guess, n);
    let right = letters_after(before, target, guess);
    assert forall|c: char| is_letter(c) implies #[trigger] left[c] =~= right[c] by {
        lemma_occurrences(guess, c);
        lemma_occurrences(target, c);
        assert(occurs_below(guess, c, n) == guess.contains(c));
    }
    assert(left =~= right);
    assert(scanned_letters(before, target, guess, n) =~= capped_letters(before, target, guess, 0));
}

/// Compares `guess` with the hidden word and records what the comparison
/// shows. The result tells whether `guess` is the hidden word.
///
/// The letters of `guess` are taken from left to right. A letter that the
/// hidden word holds becomes present; where the hidden word holds it at the
/// same position, the position is confirmed for it and the letter is written
/// into that slot of `final_guess`, elsewhere the position is excluded for
/// it; either way the letter joins `in_word`. A letter that the hidden word
/// does not hold becomes absent. Then each letter that both words hold may
/// lose the right to occur twice or three times in a candidate: as
/// [`loses_double`] and [`loses_triple`] say.
pub fn compare(
    guess: String,
    letters: &mut ConstraintStore,
    final_info: &TargetInfo,
    final_guess: &mut Vec<char>,
    in_word: &mut LetterSet,
) -> (is_word: bool)
    requires
        valid_word(guess@),
        old(final_guess)@.len() == WORD_LEN,
    ensures
        is_word == (guess@ == final_info@),
        final(letters)@ == letters_after(old(letters)@, final_info@, guess@),
        final(final_guess)@ == buffer_after(old(final_guess)@, final_info@, guess@),
        final(in_word)@ == present_after(old(in_word)@, final_info@, guess@),
        forall|c: char|
            is_letter(c) && (#[trigger] final(letters)@[c]).double_allowed ==> old(
                letters,
            )@[c].double_allowed,
        forall|c: char|
            is_letter(c) && (#[trigger] final(letters)@[c]).triple_allowed ==> old(
                letters,
            )@[c].triple_allowed,
        forall|i: int|
            0 <= i < WORD_LEN && old(final_guess)@[i] != UNSET && (guess@[i] != final_info@[i]
                || old(final_guess)@[i] == final_info@[i]) ==> #[trigger] final(final_guess)@[i]
                == old(final_guess)@[i],
        buffer_agrees(old(final_guess)@, final_info@) ==> buffer_agrees(
            final(final_guess)@,
            final_info@,
        ),
        old(in_word)@.subset_of(final(in_word)@),
{
    let final_word = final_info.word();
    let ghost target = final_word@;
    let ghost letters_before = letters@;
    let ghost buffer_before = final_guess@;
    let ghost present_before = in_word@;
    let mut is_word = true;
    let mut i: usize = 0;
    proof {
        letters.lemma_domain();
    }
    assert(letters@ =~= scanned_letters(letters_before, target, guess@, 0));
    assert(final_guess@ =~= scanned_buffer(buffer_before, target, guess@, 0));
    assert(in_word@ =~= scanned_present(present_before, target, guess@, 0));
    while i < WORD_LEN
        invariant
            i <= WORD_LEN,
            valid_word(guess@),
            valid_word(target),
            target == final_info@,
            buffer_before.len() == WORD_LEN,
            letters@ == scanned_letters(letters_before, target, guess@, i as int),
            final_guess@ == scanned_buffer(buffer_before, target, guess@, i as int),
            in_word@ == scanned_present(present_before, target, guess@, i as int),
            is_word == (forall|j: int| 0 <= j < i ==> guess@[j] == target[j]),
        decreases WORD_LEN - i,
    {
        let c = char_at(&guess, i);
        let mut info = letters.get(c);
        let ghost present_now = in_word@;
        if final_info.contains(c) {
            info.set_membership(Membership::Present);
            if final_info.has_at(c, i) {
                info.confirm_at(i);
                final_guess.set(i, c);
                in_word.insert(c);
            } else {
                info.exclude_at(i);
                in_word.insert(c);
                is_word = false;
            }
        } else {
            info.set_membership(Membership::Absent);
            is_word = false;
        }
        letters.put(c, info);
        proof {
            assert(guess@[i as int] == c);
            if !target.contains(c) {
                assert(target[i as int] != c);
            }
            lemma_scan_step(letters_before, target, guess@, i as int, info@);
            assert(final_guess@ =~= scanned_buffer(buffer_before, target, guess@, i + 1));
            let next = scanned_present(present_before, target, guess@, i + 1);
            assert forall|d: char| in_word@.contains(d) <==> next.contains(d) by {
                if occurs_below(guess@, d, i + 1) {
                    let j = choose|j: int| 0 <= j < i + 1 && guess@[j] == d;
                    if j < i {
                        assert(occurs_below(guess@, d, i as int));
                    }
                }
                if occurs_below(guess@, d, i as int) {
                    let j = choose|j: int| 0 <= j < i && guess@[j] == d;
                    assert(0 <= j < i + 1 && guess@[j] == d);
                }
                if d == c {
                    assert(occurs_below(guess@, c, i + 1));
                }
            }
            assert(in_word@ =~= next);
        }
        i += 1;
    }
    proof {
        lemma_passes_done(letters_before, target, guess@);
    }
    let mut i: usize = 0;
    while i < WORD_LEN
        invariant
            i <= WORD_LEN,
            valid_word(guess@),
            valid_word(target),
            target == final_info@,
            letters@ == capped_letters(letters_before, target, guess@, i as int),
        decreases WORD_LEN - i,
    {
        let c = char_at(&guess, i);
        if final_info.contains(c) {
            let len = count_letter(&guess, c);
            let final_len = final_info.count(c);
            let mut info = letters.get(c);
            if len > final_len {
                info.forbid_triple();
                if len == 2 {
                    info.forbid_double();
                }
            } else if len == 3 {
                info.forbid_double();
            }
            letters.put(c, info);
            proof {
                lemma_occurrences(guess@, c);
                lemma_occurrences(target, c);
                lemma_cap_step(letters_before, target, guess@, i as int, info@);
            }
        } else {
            proof {
                lemma_occurrences(guess@, c);
                lemma_occurrences(target, c);
                let now = capped_letters(letters_before, target, guess@, i as int);
                lemma_cap_step(letters_before, target, guess@, i as int, now[c]);
                assert(now.insert(c, now[c]) =~= now);
            }
        }
        i += 1;
    }
    proof {
        assert(final_guess@ =~= buffer_after(buffer_before, target, guess@));
        let present = present_after(present_before, target, guess@);
        assert forall|d: char| in_word@.contains(d) <==> present.contains(d) by {
            assert(occurs_below(guess@, d, WORD_LEN as int) == guess@.contains(d));
        }
        assert(in_word@ =~= present);
        assert(is_word == (guess@ =~= target));
    }
    is_word
}

} // verus!
