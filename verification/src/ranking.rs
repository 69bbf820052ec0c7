//! The candidate ranker and the guess selector: each word is scored by the
//! positional frequencies of its letters, and the words are put in the order
//! of their scores.

use vstd::prelude::*;
use crate::frequency::{Frequencies, FrequencyTable};
use crate::words::{
    char_at, positions_below, valid_word, valid_words, word_views, WORD_LEN,
};

verus! {

/// The scale of the scores: the least number that each of 1 to 5 divides.
pub const SCORE_SCALE: u128 = 60;

/// Which occurrence of its letter stands at position `i` of `word`: 1 for
/// the first, 2 for the second, and so on.
pub open spec fn occurrence_number(word: Seq<char>, i: int) -> nat {
    positions_below(word, word[i], i + 1).len()
}

/// The part of the score of `word` that its first `n` letters earn.
pub open spec fn score_below(word: Seq<char>, frequencies: Frequencies, n: int) -> nat
    decreases n,
{
    if n <= 0 {
        0
    } else {
        score_below(word, frequencies, n - 1) + frequencies.count(word[n - 1], n - 1) * (
        SCORE_SCALE as nat / occurrence_number(word, n - 1))
    }
}

/// The score of `word`, kept exactly.
///
/// A letter earns its frequency at the position where it stands, divided by
/// its occurrence number; the score of a word is the sum over its letters.
/// A frequency being a count over the number of words, that sum is a
/// fraction: this function gives its numerator over the denominator
/// `SCORE_SCALE` times the number of words. The denominator is the same for
/// every word, so the numerators order the words as their scores do.
pub open spec fn score(word: Seq<char>, frequencies: Frequencies) -> nat {
    score_below(word, frequencies, word.len() as int)
}

/// The scores of the words of a list.
pub open spec fn scores_of(words: Seq<Seq<char>>, frequencies: Frequencies) -> Seq<nat> {
    Seq::new(words.len(), |k: int| score(words[k], frequencies))
}

/// The word at place `a` of a list, with the score `score_a`, is ranked
/// before the one at place `b` with the score `score_b`: it has the higher
/// score, or the same score and the earlier place.
pub open spec fn comes_first(score_a: int, a: int, score_b: int, b: int) -> bool {
    score_a > score_b || (score_a == score_b && a < b)
}

/// `order` lists the places of a word list in ranking order: each place
/// once, every one ranked before those that follow it.
pub open spec fn is_ranking_order(scores: Seq<nat>, order: Seq<int>) -> bool {
    &&& order.len() == scores.len()
    &&& forall|j: int| 0 <= j < order.len() ==> 0 <= #[trigger] order[j] < scores.len()
    &&& forall|v: int| 0 <= v < scores.len() ==> #[trigger] order.contains(v)
    &&& forall|j: int, k: int|
        0 <= j < k < order.len() ==> comes_first(
            scores[#[trigger] order[j]] as int,
            order[j],
            scores[#[trigger] order[k]] as int,
            order[k],
        )
}

/// The words at the places that `order` lists, each with its score.
pub open spec fn ranked_by(words: Seq<Seq<char>>, frequencies: Frequencies, order: Seq<int>) -> Seq<
    (Seq<char>, nat),
> {
    Seq::new(order.len(), |j: int| (words[order[j]], score(words[order[j]], frequencies)))
}

/// `ranked` is the ranking of `words`: the same words, each with its score,
/// in descending order of the scores, words of equal score in the order in
/// which they came.
pub open spec fn is_ranking(
    words: Seq<Seq<char>>,
    frequencies: Frequencies,
    ranked: Seq<(Seq<char>, nat)>,
) -> bool {
    exists|order: Seq<int>|
        is_ranking_order(scores_of(words, frequencies), order) && ranked == #[trigger] ranked_by(
            words,
            frequencies,
            order,
        )
}

/// The entries of a ranking, each as the characters of its word and its
/// score.
pub open spec fn ranked_views(ranked: Seq<(String, u128)>) -> Seq<(Seq<char>, nat)> {
    Seq::new(ranked.len(), |j: int| (ranked[j].0@, ranked[j].1 as nat))
}

/// The place of the first of the highest scores among the first `n`.
pub open spec fn best_below(scores: Seq<nat>, n: int) -> int
    decreases n,
{
    if n <= 1 {
        0
    } else {
        let best = best_below(scores, n - 1);
        if scores[n - 1] > scores[best] {
            n - 1
        } else {
            best
        }
    }
}

/// The word that the ranking puts first: the first of the words with the
/// highest score.
pub open spec fn best_word(words: Seq<Seq<char>>, frequencies: Frequencies) -> Seq<char> {
    words[best_below(scores_of(words, frequencies), words.len() as int)]
}

/// The place that `best_below` gives is ranked before every other place
/// among the first `n`.
pub proof fn lemma_best_below(scores: Seq<nat>, n: int)
    requires
        1 <= n <= scores.len(),
    ensures
        0 <= best_below(scores, n) < n,
        forall|j: int|
            0 <= j < n && j != best_below(scores, n) ==> comes_first(
                scores[best_below(scores, n)] as int,
                best_below(scores, n),
                #[trigger] scores[j] as int,
                j,
            ),
    decreases n,
{
    if n > 1 {
        lemma_best_below(scores, n - 1);
    }
}

/// A ranking order starts with the place of the first of the highest
/// scores.
pub proof fn lemma_ranking_starts_with_best(scores: Seq<nat>, order: Seq<int>)
    requires
        scores.len() > 0,
        is_ranking_order(scores, order),
    ensures
        order[0] == best_below(scores, scores.len() as int),
{
    let best = best_below(scores, scores.len() as int);
    lemma_best_below(scores, scores.len() as int);
    assert(order.contains(best));
    let k = choose|k: int| 0 <= k < order.len() && order[k] == best;
    if k > 0 {
        assert(comes_first(scores[order[0]] as int, order[0], scores[order[k]] as int, order[k]));
        assert(comes_first(scores[best] as int, best, scores[order[0]] as int, order[0]));
    }
}

/// The order of a ranking is decided by the scores alone: two ranking orders
/// of the same scores are the same.
pub proof fn lemma_ranking_order_unique(scores: Seq<nat>, first: Seq<int>, second: Seq<int>)
    requires
        is_ranking_order(scores, first),
        is_ranking_order(scores, second),
    ensures
        first == second,
{
    assert forall|j: int| 0 <= j < scores.len() implies first[j] == second[j] by {
        lemma_same_place(scores, first, second, j);
    }
    assert(first =~= second);
}

/// How many places are ranked before the place `v`, among the places below
/// `n`.
pub open spec fn ranked_before_count(scores: Seq<nat>, v: int, n: int) -> nat
    decreases n,
{
    if n <= 0 {
        0
    } else {
        ranked_before_count(scores, v, n - 1) + if comes_first(
            scores[n - 1] as int,
            n - 1,
            scores[v] as int,
            v,
        ) {
            1nat
        } else {
            0nat
        }
    }
}

/// How many of the first `m` entries of `order` are ranked before the place
/// `v` and lie below `n`.
spec fn listed_before_count(scores: Seq<nat>, order: Seq<int>, v: int, n: int, m: int) -> nat
    decreases m,
{
    if m <= 0 {
        0
    } else {
        listed_before_count(scores, order, v, n, m - 1) + if order[m - 1] < n && comes_first(
            scores[order[m - 1]] as int,
            order[m - 1],
            scores[v] as int,
            v,
        ) {
            1nat
        } else {
            0nat
        }
    }
}

/// Two ranking orders of the same scores hold the same place at `j`.
proof fn lemma_same_place(scores: Seq<nat>, first: Seq<int>, second: Seq<int>, j: int)
    requires
        is_ranking_order(scores, first),
        is_ranking_order(scores, second),
        0 <= j < scores.len(),
    ensures
        first[j] == second[j],
{
    lemma_place_is_count(scores, first, j);
    lemma_place_is_count(scores, second, j);
    let a = first[j];
    let b = second[j];
    if a != b {
        // Both stand at place `j`, so as many places are ranked before the one
        // as before the other; yet one of the two is ranked before the other,
        // and whatever is ranked before it is ranked before the other too.
        let n = scores.len() as int;
        if comes_first(scores[a] as int, a, scores[b] as int, b) {
            lemma_count_grows(scores, a, b, n);
        } else {
            lemma_count_grows(scores, b, a, n);
        }
    }
}

/// Where `a` is ranked before `b`, fewer places are ranked before `a` than
/// before `b`.
proof fn lemma_count_grows(scores: Seq<nat>, a: int, b: int, n: int)
    requires
        0 <= a < scores.len(),
        0 <= b < scores.len(),
        0 <= n <= scores.len(),
        comes_first(scores[a] as int, a, scores[b] as int, b),
    ensures
        ranked_before_count(scores, a, n) <= ranked_before_count(scores, b, n),
        a < n ==> ranked_before_count(scores, a, n) < ranked_before_count(scores, b, n),
    decreases n,
{
    if n > 0 {
        lemma_count_grows(scores, a, b, n - 1);
    }
}

/// The entry at place `j` of a ranking order is the place that exactly `j`
/// places are ranked before.
pub proof fn lemma_place_is_count(scores: Seq<nat>, order: Seq<int>, j: int)
    requires
        is_ranking_order(scores, order),
        0 <= j < scores.len(),
    ensures
        ranked_before_count(scores, order[j], scores.len() as int) == j,
{
    let n = scores.len() as int;
    let v = order[j];
    lemma_listed_prefix(scores, order, j, n);
    lemma_listed_all(scores, order, v, n);
}

/// Of the first `m` entries of a ranking order, those before place `j` are
/// ranked before `order[j]`, and no others.
proof fn lemma_listed_prefix(scores: Seq<nat>, order: Seq<int>, j: int, m: int)
    requires
        is_ranking_order(scores, order),
        0 <= j < scores.len(),
        0 <= m <= scores.len(),
    ensures
        listed_before_count(scores, order, order[j], scores.len() as int, m) == if m <= j {
            m
        } else {
            j
        },
    decreases m,
{
    if m > 0 {
        lemma_listed_prefix(scores, order, j, m - 1);
        let v = order[j];
        let w = order[m - 1];
        if m - 1 < j {
            assert(comes_first(scores[w] as int, w, scores[v] as int, v));
        } else if m - 1 > j {
            assert(comes_first(scores[v] as int, v, scores[w] as int, w));
        }
    }
}

/// Counting over the entries of a ranking order is counting over the places.
proof fn lemma_listed_all(scores: Seq<nat>, order: Seq<int>, v: int, n: int)
    requires
        is_ranking_order(scores, order),
        0 <= v < scores.len(),
        0 <= n <= scores.len(),
    ensures
        listed_before_count(scores, order, v, n, scores.len() as int) == ranked_before_count(
            scores,
            v,
            n,
        ),
    decreases n,
{
    let len = scores.len() as int;
    if n > 0 {
        lemma_listed_all(scores, order, v, n - 1);
        assert(order.contains(n - 1));
        let at = choose|at: int| 0 <= at < order.len() && order[at] == n - 1;
        lemma_listed_one_more(scores, order, v, n, at, len);
    } else {
        lemma_listed_none(scores, order, v, len);
    }
}

/// No entry lies below the bound 0.
proof fn lemma_listed_none(scores: Seq<nat>, order: Seq<int>, v: int, m: int)
    requires
        is_ranking_order(scores, order),
        0 <= m <= scores.len(),
    ensures
        listed_before_count(scores, order, v, 0, m) == 0,
    decreases m,
{
    if m > 0 {
        lemma_listed_none(scores, order, v, m - 1);
    }
}

/// Raising the bound from `n - 1` to `n` adds the one entry that is the
/// place `n - 1`, if that place is ranked before `v`.
proof fn lemma_listed_one_more(
    scores: Seq<nat>,
    order: Seq<int>,
    v: int,
    n: int,
    at: int,
    m: int,
)
    requires
        is_ranking_order(scores, order),
        0 <= v < scores.len(),
        1 <= n <= scores.len(),
        0 <= at < order.len(),
        order[at] == n - 1,
        0 <= m <= scores.len(),
    ensures
        listed_before_count(scores, order, v, n, m) == listed_before_count(
            scores,
            order,
            v,
            n - 1,
            m,
        ) + if at < m && comes_first(scores[n - 1] as int, n - 1, scores[v] as int, v) {
            1nat
        } else {
            0nat
        },
    decreases m,
{
    if m > 0 {
        lemma_listed_one_more(scores, order, v, n, at, m - 1);
        if m - 1 != at && order[m - 1] == n - 1 {
            // A ranking order holds no place twice.
            if m - 1 < at {
                assert(comes_first(
                    scores[order[m - 1]] as int,
                    order[m - 1],
                    scores[order[at]] as int,
                    order[at],
                ));
            } else {
                assert(comes_first(
                    scores[order[at]] as int,
                    order[at],
                    scores[order[m - 1]] as int,
                    order[m - 1],
                ));
            }
        }
    }
}

/// A word list has one ranking only.
pub proof fn lemma_ranking_unique(
    words: Seq<Seq<char>>,
    frequencies: Frequencies,
    first: Seq<(Seq<char>, nat)>,
    second: Seq<(Seq<char>, nat)>,
)
    requires
        is_ranking(words, frequencies, first),
        is_ranking(words, frequencies, second),
    ensures
        first == second,
{
    let scores = scores_of(words, frequencies);
    let a = choose|order: Seq<int>|
        is_ranking_order(scores, order) && first == #[trigger] ranked_by(
            words,
            frequencies,
            order,
        );
    let b = choose|order: Seq<int>|
        is_ranking_order(scores, order) && second == #[trigger] ranked_by(
            words,
            frequencies,
            order,
        );
    lemma_ranking_order_unique(scores, a, b);
}

/// Which occurrence of its letter stands at position `i` of `word`.
pub fn occurrence_number_at(word: &String, i: usize) -> (k: usize)
    requires
        word@.len() == WORD_LEN,
        i < WORD_LEN,
    ensures
        k == occurrence_number(word@, i as int),
        1 <= k <= i + 1,
{
    let c = char_at(word, i);
    let mut k: usize = 0;
    let mut j: usize = 0;
    while j <= i
        invariant
            j <= i + 1,
            i < WORD_LEN,
            word@.len() == WORD_LEN,
            c == word@[i as int],
            k == positions_below(word@, c, j as int).len(),
            k <= j,
        decreases i + 1 - j,
    {
        if char_at(word, j) == c {
            k += 1;
        }
        j += 1;
    }
    k
}

/// What a letter's frequency is multiplied by where the letter occurs for
/// the `k`-th time: the scale divided by `k`.
fn weight_of(k: usize) -> (weight: u128)
    requires
        1 <= k <= WORD_LEN,
    ensures
        weight == SCORE_SCALE as nat / k as nat,
        weight <= SCORE_SCALE,
{
    assert(k == 1 || k == 2 || k == 3 || k == 4 || k == 5);
    SCORE_SCALE / (k as u128)
}

/// The score of `word` under the frequencies of `table`.
pub fn score_word(word: &String, table: &FrequencyTable) -> (points: u128)
    requires
        valid_word(word@),
    ensures
        points == score(word@, table@),
{
    let mut points: u128 = 0;
    let mut i: usize = 0;
    while i < WORD_LEN
        invariant
            i <= WORD_LEN,
            valid_word(word@),
            points == score_below(word@, table@, i as int),
            points <= i * 1_106_804_644_422_573_096_900,
        decreases WORD_LEN - i,
    {
        let count = table.count(char_at(word, i), i);
        let k = occurrence_number_at(word, i);
        let weight = weight_of(k);
        assert(count as u128 * weight <= 1_106_804_644_422_573_096_900) by (nonlinear_arith)
            requires
                count <= 0xffff_ffff_ffff_ffff,
                weight <= 60,
        ;
        points = points + (count as u128) * weight;
        i += 1;
    }
    points
}

/// The scores of the words of a list, in the order of the list.
fn score_all(words: &Vec<String>, table: &FrequencyTable) -> (scores: Vec<u128>)
    requires
        valid_words(word_views(words@)),
    ensures
        scores@.len() == words@.len(),
        forall|k: int| 0 <= k < scores@.len() ==> #[trigger] scores@[k] == score(words@[k]@, table@),
{
    let mut scores: Vec<u128> = Vec::new();
    let mut k: usize = 0;
    while k < words.len()
        invariant
            k <= words@.len(),
            valid_words(word_views(words@)),
            scores@.len() == k,
            forall|m: int| 0 <= m < k ==> #[trigger] scores@[m] == score(words@[m]@, table@),
        decreases words@.len() - k,
    {
        assert(valid_word(word_views(words@)[k as int]));
        scores.push(score_word(&words[k], table));
        k += 1;
    }
    scores
}

/// The place `a` is ranked before the place `b`.
spec fn place_first(scores: Seq<u128>, a: usize, b: usize) -> bool {
    comes_first(scores[a as int] as int, a as int, scores[b as int] as int, b as int)
}

/// Every place of `items` is ranked before those that follow it.
spec fn in_order(scores: Seq<u128>, items: Seq<usize>) -> bool {
    forall|j: int, k: int|
        0 <= j < k < items.len() ==> place_first(scores, #[trigger] items[j], #[trigger] items[k])
}

/// `items` holds each place from `lo` up to `hi`, and nothing else.
spec fn holds_places(items: Seq<usize>, lo: int, hi: int) -> bool {
    &&& items.len() == hi - lo
    &&& forall|j: int| 0 <= j < items.len() ==> lo <= #[trigger] items[j] < hi
    &&& forall|v: int| lo <= v < hi ==> #[trigger] items.contains(v as usize)
}

/// Tells whether the place `a` is ranked before the place `b`.
fn ranks_before(scores: &Vec<u128>, a: usize, b: usize) -> (first: bool)
    requires
        a < scores@.len(),
        b < scores@.len(),
    ensures
        first == place_first(scores@, a, b),
{
    scores[a] > scores[b] || (scores[a] == scores[b] && a < b)
}

/// Merges two runs of places, each in ranking order, into one.
fn merge_runs(
    scores: &Vec<u128>,
    left: &Vec<usize>,
    right: &Vec<usize>,
    Ghost(lo): Ghost<int>,
    Ghost(mid): Ghost<int>,
    Ghost(hi): Ghost<int>,
) -> (merged: Vec<usize>)
    requires
        0 <= lo <= mid <= hi <= scores@.len(),
        holds_places(left@, lo, mid),
        holds_places(right@, mid, hi),
        in_order(scores@, left@),
        in_order(scores@, right@),
    ensures
        holds_places(merged@, lo, hi),
        in_order(scores@, merged@),
{
    let mut merged: Vec<usize> = Vec::new();
    let mut i: usize = 0;
    let mut j: usize = 0;
    while i < left.len() || j < right.len()
        invariant
            0 <= lo <= mid <= hi <= scores@.len(),
            holds_places(left@, lo, mid),
            holds_places(right@, mid, hi),
            in_order(scores@, left@),
            in_order(scores@, right@),
            i <= left@.len(),
            j <= right@.len(),
            merged@.len() == i + j,
            in_order(scores@, merged@),
            forall|x: int| 0 <= x < merged@.len() ==> lo <= #[trigger] merged@[x] < hi,
            forall|p: int| 0 <= p < i ==> merged@.contains(#[trigger] left@[p]),
            forall|q: int| 0 <= q < j ==> merged@.contains(#[trigger] right@[q]),
            forall|x: int, p: int|
                0 <= x < merged@.len() && i <= p < left@.len() ==> place_first(
                    scores@,
                    #[trigger] merged@[x],
                    #[trigger] left@[p],
                ),
            forall|x: int, q: int|
                0 <= x < merged@.len() && j <= q < right@.len() ==> place_first(
                    scores@,
                    #[trigger] merged@[x],
                    #[trigger] right@[q],
                ),
        decreases left@.len() - i + right@.len() - j,
    {
        let ghost before = merged@;
        let from_left = if i < left.len() && j < right.len() {
            ranks_before(scores, left[i], right[j])
        } else {
            i < left.len()
        };
        if from_left {
            let place = left[i];
            merged.push(place);
            proof {
                assert forall|q: int| j <= q < right@.len() implies place_first(
                    scores@,
                    place,
                    #[trigger] right@[q],
                ) by {
                    if q > j {
                        assert(place_first(scores@, right@[j as int], right@[q]));
                    }
                }
                assert forall|p: int| i < p < left@.len() implies place_first(
                    scores@,
                    place,
                    #[trigger] left@[p],
                ) by {
                    assert(place_first(scores@, left@[i as int], left@[p]));
                }
            }
            i += 1;
        } else {
            let place = right[j];
            merged.push(place);
            proof {
                assert forall|p: int| i <= p < left@.len() implies place_first(
                    scores@,
                    place,
                    #[trigger] left@[p],
                ) by {
                    // The two runs hold different places, so where the left
                    // place is not ranked first, the right one is.
                    assert(left@[i as int] < mid <= place);
                    if p > i {
                        assert(place_first(scores@, left@[i as int], left@[p]));
                    }
                }
                assert forall|q: int| j < q < right@.len() implies place_first(
                    scores@,
                    place,
                    #[trigger] right@[q],
                ) by {
                    assert(place_first(scores@, right@[j as int], right@[q]));
                }
            }
            j += 1;
        }
        proof {
            let last = before.len() as int;
            assert(merged@[last] == merged@.last());
            assert forall|x: int| 0 <= x < before.len() implies merged@[x] == before[x] by {}
            assert forall|p: int| 0 <= p < i implies merged@.contains(#[trigger] left@[p]) by {
                if from_left && p == i - 1 {
                    assert(merged@[last] == left@[p]);
                } else {
                    let at = choose|at: int| 0 <= at < before.len() && before[at] == left@[p];
                    assert(merged@[at] == left@[p]);
                }
            }
            assert forall|q: int| 0 <= q < j implies merged@.contains(#[trigger] right@[q]) by {
                if !from_left && q == j - 1 {
                    assert(merged@[last] == right@[q]);
                } else {
                    let at = choose|at: int| 0 <= at < before.len() && before[at] == right@[q];
                    assert(merged@[at] == right@[q]);
                }
            }
        }
    }
    proof {
        assert forall|v: int| lo <= v < hi implies #[trigger] merged@.contains(v as usize) by {
            if v < mid {
                assert(left@.contains(v as usize));
                let p = choose|p: int| 0 <= p < left@.len() && left@[p] == v as usize;
                assert(merged@.contains(left@[p]));
            } else {
                assert(right@.contains(v as usize));
                let q = choose|q: int| 0 <= q < right@.len() && right@[q] == v as usize;
                assert(merged@.contains(right@[q]));
            }
        }
    }
    merged
}

/// The places from `lo` up to `hi`, in ranking order.
fn rank_places(scores: &Vec<u128>, lo: usize, hi: usize) -> (places: Vec<usize>)
    requires
        lo <= hi <= scores@.len(),
    ensures
        holds_places(places@, lo as int, hi as int),
        in_order(scores@, places@),
    decreases hi - lo,
{
    if hi - lo <= 1 {
        let mut places: Vec<usize> = Vec::new();
        if lo < hi {
            places.push(lo);
            assert(places@[0] == lo);
        }
        places
    } else {
        let mid = lo + (hi - lo) / 2;
        let left = rank_places(scores, lo, mid);
        let right = rank_places(scores, mid, hi);
        merge_runs(scores, &left, &right, Ghost(lo as int), Ghost(mid as int), Ghost(hi as int))
    }
}

/// Scores each word by the frequencies of `probabilities` and puts the words
/// in descending order of their scores. Words of equal score stay in the
/// order in which they came.
pub fn valid_word_prob(words: &Vec<String>, probabilities: FrequencyTable) -> (ranked: Vec<
    (String, u128),
>)
    requires
        valid_words(word_views(words@)),
    ensures
        is_ranking(word_views(words@), probabilities@, ranked_views(ranked@)),
        ranked@.len() == words@.len(),
        forall|j: int|
            0 <= j < ranked@.len() ==> (#[trigger] ranked@[j]).1 == score(
                ranked@[j].0@,
                probabilities@,
            ),
        forall|j: int, k: int|
            0 <= j < k < ranked@.len() ==> (#[trigger] ranked@[j]).1 >= (#[trigger] ranked@[k]).1,
        forall|j: int|
            0 <= j < ranked@.len() ==> word_views(words@).contains((#[trigger] ranked@[j]).0@),
        ranked@.len() > 0 ==> ranked@[0].0@ == best_word(word_views(words@), probabilities@),
{
    let ghost all = word_views(words@);
    let ghost frequencies = probabilities@;
    let scores = score_all(words, &probabilities);
    let places = rank_places(&scores, 0, words.len());
    let ghost order = Seq::new(places@.len(), |j: int| places@[j] as int);
    proof {
        assert(scores@.len() == all.len());
        assert forall|v: int| 0 <= v < all.len() implies #[trigger] order.contains(v) by {
            assert(places@.contains(v as usize));
            let at = choose|at: int| 0 <= at < places@.len() && places@[at] == v as usize;
            assert(order[at] == v);
        }
        assert forall|j: int, k: int| 0 <= j < k < order.len() implies comes_first(
            scores_of(all, frequencies)[#[trigger] order[j]] as int,
            order[j],
            scores_of(all, frequencies)[#[trigger] order[k]] as int,
            order[k],
        ) by {
            assert(place_first(scores@, places@[j], places@[k]));
        }
        assert(is_ranking_order(scores_of(all, frequencies), order));
    }
    let mut ranked: Vec<(String, u128)> = Vec::new();
    let mut j: usize = 0;
    while j < places.len()
        invariant
            j <= places@.len(),
            places@.len() == words@.len(),
            scores@.len() == words@.len(),
            all == word_views(words@),
            order == Seq::new(places@.len(), |j: int| places@[j] as int),
            forall|m: int| 0 <= m < places@.len() ==> 0 <= #[trigger] places@[m] < words@.len(),
            forall|k: int|
                0 <= k < scores@.len() ==> #[trigger] scores@[k] == score(
                    words@[k]@,
                    frequencies,
                ),
            ranked@.len() == j,
            forall|m: int|
                0 <= m < j ==> (#[trigger] ranked@[m]).0@ == words@[places@[m] as int]@
                    && ranked@[m].1 == scores@[places@[m] as int],
        decreases places@.len() - j,
    {
        let place = places[j];
        ranked.push((words[place].clone(), scores[place]));
        j += 1;
    }
    proof {
        assert(ranked_views(ranked@) =~= ranked_by(all, frequencies, order));
        assert forall|j: int, k: int| 0 <= j < k < ranked@.len() implies (#[trigger] ranked@[j]).1
            >= (#[trigger] ranked@[k]).1 by {
            assert(place_first(scores@, places@[j], places@[k]));
        }
        assert forall|j: int| 0 <= j < ranked@.len() implies all.contains(
            (#[trigger] ranked@[j]).0@,
        ) by {
            assert(all[places@[j] as int] == ranked@[j].0@);
        }
        if ranked@.len() > 0 {
            lemma_ranking_starts_with_best(scores_of(all, frequencies), order);
        }
    }
    ranked
}

/// Picks the next guess from a ranking: the word that is ranked first.
///
/// The choice is deterministic. Nothing is drawn among the best words, so
/// the guesses of a trial are decided by the candidates alone.
pub fn grab_best_word(ordered_words: Vec<(String, u128)>) -> (word: String)
    requires
        ordered_words@.len() > 0,
    ensures
        word@ == ordered_words@[0].0@,
{
    let mut ordered_words = ordered_words;
    let best = ordered_words.remove(0);
    best.0
}

} // verus!
