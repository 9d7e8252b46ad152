//! The elimination solver: which words an answer leaves, and which word to
//! guess next.

use crate::chance::choose_one;
use crate::edit::word_distance;
use crate::feedback::compare_distances;
use crate::feedback::ordinal;
use crate::feedback::Feedback;
use crate::index::DistanceIndex;
use crate::parallel::par_map;
use vstd::prelude::*;

verus! {

/// The signal that an oracle hiding the word at `target` gives for the word at
/// `guess`, when the guess before it was the word at `previous`.
pub open spec fn signal(corpus: Seq<Seq<char>>, target: int, guess: int, previous: int) -> Feedback {
    ordinal(
        word_distance(corpus[target], corpus[guess]),
        word_distance(corpus[target], corpus[previous]),
    )
}

/// The test that a candidate passes when it could be the hidden word: had it
/// been hidden, the oracle would have answered `feedback`.
pub open spec fn agrees(corpus: Seq<Seq<char>>, guess: int, previous: int, feedback: Feedback)
    -> spec_fn(usize) -> bool {
    |w: usize| signal(corpus, w as int, guess, previous) == feedback
}

/// The candidates that `feedback` leaves, in their order.
pub open spec fn survivors(
    corpus: Seq<Seq<char>>,
    candidates: Seq<usize>,
    guess: int,
    previous: int,
    feedback: Feedback,
) -> Seq<usize> {
    candidates.filter(agrees(corpus, guess, previous, feedback))
}

/// The largest of three numbers.
pub open spec fn max3(x: nat, y: nat, z: nat) -> nat {
    if x >= y && x >= z {
        x
    } else if y >= z {
        y
    } else {
        z
    }
}

/// The score of a guess: the number of candidates left by the answer that
/// leaves the most.
pub open spec fn worst_case(
    corpus: Seq<Seq<char>>,
    candidates: Seq<usize>,
    guess: int,
    previous: int,
) -> nat {
    max3(
        survivors(corpus, candidates, guess, previous, Feedback::Closer).len(),
        survivors(corpus, candidates, guess, previous, Feedback::Same).len(),
        survivors(corpus, candidates, guess, previous, Feedback::Farther).len(),
    )
}

/// Whether every candidate is a position of a corpus of `n` words.
pub open spec fn in_range(candidates: Seq<usize>, n: nat) -> bool {
    forall|k: int| 0 <= k < candidates.len() ==> #[trigger] candidates[k] < n
}

/// Whether the candidates stand in the order of the corpus, none of them
/// twice.
pub open spec fn ascending(candidates: Seq<usize>) -> bool {
    forall|k: int, m: int| 0 <= k < m < candidates.len() ==> candidates[k] < candidates[m]
}

/// Whether the candidate at position `k` is the one to guess: no candidate
/// has a smaller score, and none before it has the same.
pub open spec fn minimax_position(
    corpus: Seq<Seq<char>>,
    candidates: Seq<usize>,
    previous: int,
    k: int,
) -> bool {
    &&& 0 <= k < candidates.len()
    &&& forall|m: int|
        0 <= m < candidates.len() ==> worst_case(corpus, candidates, candidates[k] as int, previous)
            <= worst_case(corpus, candidates, #[trigger] candidates[m] as int, previous)
    &&& forall|m: int|
        0 <= m < k ==> worst_case(corpus, candidates, candidates[k] as int, previous)
            < worst_case(corpus, candidates, #[trigger] candidates[m] as int, previous)
}

/// Computes the score of a guess.
pub fn worst_case_score(
    index: &DistanceIndex,
    candidates: &Vec<usize>,
    guess: usize,
    previous: usize,
) -> (score: usize)
    requires
        guess < index@.len(),
        previous < index@.len(),
        in_range(candidates@, index@.len()),
    ensures
        score == worst_case(index@, candidates@, guess as int, previous as int),
{
    let ghost closer_test = agrees(index@, guess as int, previous as int, Feedback::Closer);
    let ghost same_test = agrees(index@, guess as int, previous as int, Feedback::Same);
    let ghost farther_test = agrees(index@, guess as int, previous as int, Feedback::Farther);
    let mut closer: usize = 0;
    let mut same: usize = 0;
    let mut farther: usize = 0;
    let mut i: usize = 0;
    proof {
        reveal(Seq::filter);
    }
    while i < candidates.len()
        invariant
            i <= candidates@.len(),
            guess < index@.len(),
            previous < index@.len(),
            in_range(candidates@, index@.len()),
            closer_test == agrees(index@, guess as int, previous as int, Feedback::Closer),
            same_test == agrees(index@, guess as int, previous as int, Feedback::Same),
            farther_test == agrees(index@, guess as int, previous as int, Feedback::Farther),
            closer == candidates@.take(i as int).filter(closer_test).len(),
            same == candidates@.take(i as int).filter(same_test).len(),
            farther == candidates@.take(i as int).filter(farther_test).len(),
        decreases candidates@.len() - i,
    {
        let w = candidates[i];
        let fb = compare_distances(index.distance(w, guess), index.distance(w, previous));
        proof {
            let seen = candidates@.take(i as int);
            assert(candidates@.take(i + 1) =~= seen.push(w));
            seen.lemma_filter_push(w, closer_test);
            seen.lemma_filter_push(w, same_test);
            seen.lemma_filter_push(w, farther_test);
            seen.push(w).lemma_filter_len(closer_test);
            seen.push(w).lemma_filter_len(same_test);
            seen.push(w).lemma_filter_len(farther_test);
        }
        match fb {
            Feedback::Closer => {
                closer += 1;
            },
            Feedback::Same => {
                same += 1;
            },
            Feedback::Farther => {
                farther += 1;
            },
        }
        i += 1;
    }
    assert(candidates@.take(i as int) =~= candidates@);
    if closer >= same && closer >= farther {
        closer
    } else if same >= farther {
        same
    } else {
        farther
    }
}

/// Computes the distance from each candidate to the word at `word`.
pub fn distances_to(index: &DistanceIndex, candidates: &Vec<usize>, word: usize) -> (distances:
    Vec<u32>)
    requires
        word < index@.len(),
        in_range(candidates@, index@.len()),
    ensures
        distances@.len() == candidates@.len(),
        forall|i: int|
            0 <= i < candidates@.len() ==> #[trigger] distances@[i] as nat == word_distance(
                index@[candidates@[i] as int],
                index@[word as int],
            ),
{
    let mut distances: Vec<u32> = Vec::new();
    let mut i: usize = 0;
    while i < candidates.len()
        invariant
            i <= candidates@.len(),
            word < index@.len(),
            in_range(candidates@, index@.len()),
            distances@.len() == i,
            forall|k: int|
                0 <= k < i ==> #[trigger] distances@[k] as nat == word_distance(
                    index@[candidates@[k] as int],
                    index@[word as int],
                ),
        decreases candidates@.len() - i,
    {
        distances.push(index.distance(candidates[i], word));
        i += 1;
    }
    distances
}

/// Finds the positions at which the current distance compares with the
/// previous one as the answer says, in ascending order. The distances are
/// plain numbers, whatever they were measured on.
pub fn keep_by_distances(current: &Vec<u32>, previous: &Vec<u32>, feedback: Feedback) -> (kept:
    Vec<usize>)
    requires
        current@.len() == previous@.len(),
    ensures
        forall|i: usize|
            kept@.contains(i) <==> i < current@.len() && ordinal(
                current@[i as int] as nat,
                previous@[i as int] as nat,
            ) == feedback,
        ascending(kept@),
{
    let mut kept: Vec<usize> = Vec::new();
    let mut i: usize = 0;
    while i < current.len()
        invariant
            i <= current@.len(),
            current@.len() == previous@.len(),
            forall|p: usize|
                kept@.contains(p) <==> p < i && ordinal(
                    current@[p as int] as nat,
                    previous@[p as int] as nat,
                ) == feedback,
            ascending(kept@),
        decreases current@.len() - i,
    {
        let ghost before = kept@;
        let fb = compare_distances(current[i], previous[i]);
        if fb == feedback {
            kept.push(i);
        }
        proof {
            assert forall|k: int| 0 <= k < before.len() implies #[trigger] before[k] < i by {
                assert(before.contains(before[k]));
            }
            assert forall|p: usize| kept@.contains(p) <==> p < i + 1 && ordinal(
                current@[p as int] as nat,
                previous@[p as int] as nat,
            ) == feedback by {
                if kept@.contains(p) {
                    let k = choose|k: int| 0 <= k < kept@.len() && kept@[k] == p;
                    if k < before.len() {
                        assert(before[k] == p);
                        assert(before.contains(p));
                    }
                }
                if p < i && before.contains(p) {
                    let k = choose|k: int| 0 <= k < before.len() && before[k] == p;
                    assert(kept@[k] == p);
                }
                if p == i && fb == feedback {
                    assert(kept@[kept@.len() - 1] == p);
                }
            }
        }
        i += 1;
    }
    kept
}

/// The candidates at ascending positions are the candidates that pass a
/// test, where the positions are exactly those of the candidates that pass
/// it.
proof fn lemma_positions_select(
    candidates: Seq<usize>,
    positions: Seq<usize>,
    test: spec_fn(usize) -> bool,
)
    requires
        candidates.len() <= usize::MAX,
        ascending(positions),
        forall|i: usize|
            positions.contains(i) <==> i < candidates.len() && test(candidates[i as int]),
    ensures
        positions.len() == candidates.filter(test).len(),
        forall|k: int|
            0 <= k < positions.len() ==> candidates[(#[trigger] positions[k]) as int]
                == candidates.filter(test)[k],
    decreases candidates.len(),
{
    reveal(Seq::filter);
    let n = candidates.len();
    if n == 0 {
        if positions.len() > 0 {
            assert(positions.contains(positions[0]));
        }
    } else {
        let front = candidates.drop_last();
        let last = (n - 1) as usize;
        assert forall|k: int| 0 <= k < positions.len() implies #[trigger] positions[k] < n by {
            assert(positions.contains(positions[k]));
        }
        if test(candidates.last()) {
            // The last candidate passes: its position is the last of the
            // positions, and the others are those of the candidates before it.
            assert(positions.contains(last));
            let at = choose|at: int| 0 <= at < positions.len() && positions[at] == last;
            if at < positions.len() - 1 {
                assert(positions[at] < positions[positions.len() - 1]);
            }
            let earlier = positions.drop_last();
            assert forall|i: usize| earlier.contains(i) <==> i < front.len() && test(
                front[i as int],
            ) by {
                if earlier.contains(i) {
                    let k = choose|k: int| 0 <= k < earlier.len() && earlier[k] == i;
                    assert(positions[k] < positions[at]);
                    assert(positions.contains(i));
                }
                if i < front.len() && test(front[i as int]) {
                    assert(positions.contains(i));
                    let k = choose|k: int| 0 <= k < positions.len() && positions[k] == i;
                    assert(earlier[k] == i);
                }
            }
            lemma_positions_select(front, earlier, test);
            let kept = candidates.filter(test);
            assert(kept == front.filter(test).push(candidates.last()));
            assert forall|k: int| 0 <= k < positions.len() implies candidates[(#[trigger]
                positions[k]) as int] == kept[k] by {
                if k < earlier.len() {
                    assert(earlier[k] == positions[k]);
                    assert(earlier.contains(earlier[k]));
                    assert(front[earlier[k] as int] == candidates[earlier[k] as int]);
                } else {
                    assert(k == at);
                }
            }
        } else {
            // The last candidate fails: the positions are those of the
            // candidates before it.
            assert forall|i: usize| positions.contains(i) <==> i < front.len() && test(
                front[i as int],
            ) by {
                if positions.contains(i) {
                    assert(i != last);
                }
            }
            lemma_positions_select(front, positions, test);
            assert forall|k: int| 0 <= k < positions.len() implies candidates[(#[trigger]
                positions[k]) as int] == candidates.filter(test)[k] by {
                assert(positions.contains(positions[k]));
                assert(front[positions[k] as int] == candidates[positions[k] as int]);
            }
        }
    }
}

/// Keeps the candidates that agree with an answer: those for which the
/// distance to the guess compares with the distance to the previous guess as
/// the answer says.
pub fn filter_candidates(
    index: &DistanceIndex,
    candidates: &Vec<usize>,
    guess: usize,
    previous: usize,
    feedback: Feedback,
) -> (kept: Vec<usize>)
    requires
        guess < index@.len(),
        previous < index@.len(),
        in_range(candidates@, index@.len()),
    ensures
        kept@ == survivors(index@, candidates@, guess as int, previous as int, feedback),
        kept@.len() <= candidates@.len(),
        forall|w: usize|
            kept@.contains(w) <==> candidates@.contains(w) && signal(
                index@,
                w as int,
                guess as int,
                previous as int,
            ) == feedback,
        in_range(kept@, index@.len()),
        ascending(candidates@) ==> ascending(kept@),
{
    let ghost test = agrees(index@, guess as int, previous as int, feedback);
    let current = distances_to(index, candidates, guess);
    let before = distances_to(index, candidates, previous);
    let positions = keep_by_distances(&current, &before, feedback);
    proof {
        assert forall|k: int| 0 <= k < positions@.len() implies #[trigger] positions@[k]
            < candidates@.len() by {
            assert(positions@.contains(positions@[k]));
        }
        assert(candidates@.len() == candidates.len());
        lemma_positions_select(candidates@, positions@, test);
        lemma_survivors_members(index@, candidates@, guess as int, previous as int, feedback);
    }
    let mut kept: Vec<usize> = Vec::new();
    let mut k: usize = 0;
    while k < positions.len()
        invariant
            k <= positions@.len(),
            kept@.len() == k,
            forall|m: int|
                0 <= m < positions@.len() ==> #[trigger] positions@[m] < candidates@.len(),
            forall|m: int|
                0 <= m < k ==> #[trigger] kept@[m] == candidates@[positions@[m] as int],
        decreases positions@.len() - k,
    {
        kept.push(candidates[positions[k]]);
        k += 1;
    }
    proof {
        let left = survivors(index@, candidates@, guess as int, previous as int, feedback);
        assert(kept@ =~= left);
        assert forall|m: int| 0 <= m < kept@.len() implies #[trigger] kept@[m] < index@.len() by {
            assert(kept@[m] == candidates@[positions@[m] as int]);
        }
        if ascending(candidates@) {
            assert forall|m: int, n: int| 0 <= m < n < kept@.len() implies kept@[m] < kept@[n] by {
                assert(positions@[m] < positions@[n]);
            }
        }
    }
    kept
}

/// Filter correctness: a candidate is among the survivors exactly when it was
/// a candidate and agrees with the answer; the survivors are no more than the
/// candidates were.
pub proof fn lemma_survivors_members(
    corpus: Seq<Seq<char>>,
    candidates: Seq<usize>,
    guess: int,
    previous: int,
    feedback: Feedback,
)
    ensures
        survivors(corpus, candidates, guess, previous, feedback).len() <= candidates.len(),
        forall|w: usize|
            survivors(corpus, candidates, guess, previous, feedback).contains(w) <==> candidates.contains(
                w,
            ) && signal(corpus, w as int, guess, previous) == feedback,
{
    let test = agrees(corpus, guess, previous, feedback);
    let kept = candidates.filter(test);
    candidates.lemma_filter_len(test);
    assert forall|w: usize| kept.contains(w) implies candidates.contains(w) && signal(
        corpus,
        w as int,
        guess,
        previous,
    ) == feedback by {
        let k = choose|k: int| 0 <= k < kept.len() && kept[k] == w;
        candidates.lemma_filter_pred(test, k);
        candidates.lemma_filter_contains_rev(test, w);
    }
    assert forall|w: usize|
        candidates.contains(w) && signal(corpus, w as int, guess, previous)
            == feedback implies kept.contains(w) by {
        let k = choose|k: int| 0 <= k < candidates.len() && candidates[k] == w;
        candidates.lemma_filter_contains(test, k);
    }
}

/// Whether `k` is the first position of `scores` that holds their minimum.
pub open spec fn first_minimum(scores: Seq<usize>, k: int) -> bool {
    &&& 0 <= k < scores.len()
    &&& forall|m: int| 0 <= m < scores.len() ==> scores[k] <= #[trigger] scores[m]
    &&& forall|m: int| 0 <= m < k ==> scores[k] < #[trigger] scores[m]
}

/// Finds the first position that holds the minimum of `scores`.
pub fn position_of_minimum(scores: &Vec<usize>) -> (found: Option<usize>)
    ensures
        found is None <==> scores@.len() == 0,
        found matches Some(k) ==> first_minimum(scores@, k as int),
{
    if scores.len() == 0 {
        return None;
    }
    let mut best: usize = 0;
    let mut i: usize = 1;
    while i < scores.len()
        invariant
            1 <= i <= scores@.len(),
            best < i,
            forall|m: int| 0 <= m < i ==> scores@[best as int] <= #[trigger] scores@[m],
            forall|m: int| 0 <= m < best ==> scores@[best as int] < #[trigger] scores@[m],
        decreases scores@.len() - i,
    {
        if scores[i] < scores[best] {
            best = i;
        }
        i += 1;
    }
    Some(best)
}

/// Picks the next guess by the minimax rule: the candidate whose score is the
/// least, and among those with the least score the first in the order of the
/// candidates. The scores are computed independently of each other, on the
/// worker threads. There is no guess when there is no candidate.
pub fn pick_next_guess(index: &DistanceIndex, candidates: &Vec<usize>, previous: usize) -> (picked:
    Option<usize>)
    requires
        previous < index@.len(),
        in_range(candidates@, index@.len()),
    ensures
        picked is None <==> candidates@.len() == 0,
        picked matches Some(g) ==> exists|k: int|
            #[trigger] minimax_position(index@, candidates@, previous as int, k) && candidates@[k]
                == g,
        picked matches Some(g) ==> candidates@.contains(g) && forall|w: usize|
            candidates@.contains(w) ==> worst_case(index@, candidates@, g as int, previous as int)
                <= #[trigger] worst_case(index@, candidates@, w as int, previous as int),
{
    let score_of = |guess: &usize| -> (score: usize)
        requires
            *guess < index@.len(),
        ensures
            score == worst_case(index@, candidates@, *guess as int, previous as int)
        { worst_case_score(index, candidates, *guess, previous) };
    let scores = par_map(candidates, score_of);
    match position_of_minimum(&scores) {
        None => None,
        Some(k) => {
            let g = candidates[k];
            proof {
                assert forall|m: int| 0 <= m < candidates@.len() implies scores@[m] == worst_case(
                    index@,
                    candidates@,
                    #[trigger] candidates@[m] as int,
                    previous as int,
                ) by {
                    assert(call_ensures(score_of, (&candidates@[m],), scores@[m]));
                }
                assert(minimax_position(index@, candidates@, previous as int, k as int));
                assert forall|w: usize| candidates@.contains(w) implies worst_case(
                    index@,
                    candidates@,
                    g as int,
                    previous as int,
                ) <= #[trigger] worst_case(index@, candidates@, w as int, previous as int) by {
                    let m = choose|m: int| 0 <= m < candidates@.len() && candidates@[m] == w;
                    assert(scores@[k as int] <= scores@[m]);
                }
            }
            Some(g)
        },
    }
}

/// Picks a first guess: any one of the candidates, by chance. There is no
/// guess when there is no candidate.
pub fn pick_first_guess(candidates: &Vec<usize>) -> (picked: Option<usize>)
    ensures
        picked is None <==> candidates@.len() == 0,
        picked matches Some(g) ==> candidates@.contains(g),
{
    choose_one(candidates)
}

} // verus!
