//! Games against a truthful oracle: the hidden word is never dropped, the
//! solver never repeats a guess that tells it nothing, and the hidden word is
//! guessed after a bounded number of rounds.

use crate::edit::lemma_edit_distance_self;
use crate::edit::lemma_edit_distance_zero;
use crate::edit::word_distance;
use crate::feedback::Feedback;
use crate::game::after_round;
use crate::game::after_rounds;
use crate::game::start_of_game;
use crate::game::GameState;
use crate::game::Round;
use crate::solver::agrees;
use crate::solver::in_range;
use crate::solver::lemma_survivors_members;
use crate::solver::minimax_position;
use crate::solver::signal;
use crate::solver::survivors;
use crate::solver::worst_case;
use vstd::prelude::*;

verus! {

/// Whether no word stands twice in the corpus.
pub open spec fn distinct_words(corpus: Seq<Seq<char>>) -> bool {
    forall|i: int, j: int| 0 <= i < j < corpus.len() ==> corpus[i] != corpus[j]
}

/// Whether `guess` is a guess that the solver makes in `state`: before the
/// first answer any candidate, after it the candidate that the minimax rule
/// picks.
pub open spec fn solver_guess(corpus: Seq<Seq<char>>, state: GameState, guess: usize) -> bool {
    match state.previous {
        Some(p) => exists|k: int|
            #[trigger] minimax_position(corpus, state.candidates, p as int, k)
                && state.candidates[k] == guess,
        None => state.candidates.contains(guess),
    }
}

/// Whether the signal of `round` is the one that an oracle hiding the word at
/// `target` gives in `state`. The signal for the first guess of a game
/// compares it with nothing, and may be any.
pub open spec fn truthful_answer(
    corpus: Seq<Seq<char>>,
    target: usize,
    state: GameState,
    round: Round,
) -> bool {
    state.previous matches Some(p) ==> round.feedback == signal(
        corpus,
        target as int,
        round.guess as int,
        p as int,
    )
}

/// Whether `rounds` is the course of a game so far, from its start, between
/// the solver and a truthful oracle hiding the word at `target`, in which no
/// guess has been the hidden word yet.
pub open spec fn unsolved_play(corpus: Seq<Seq<char>>, target: usize, rounds: Seq<Round>) -> bool {
    forall|i: int|
        0 <= i < rounds.len() ==> {
            let state = after_rounds(corpus, start_of_game(corpus.len()), rounds.take(i));
            &&& solver_guess(corpus, state, (#[trigger] rounds[i]).guess)
            &&& truthful_answer(corpus, target, state, rounds[i])
            &&& rounds[i].guess != target
        }
}

/// A game that is unsolved after its rounds was unsolved before the last of
/// them.
proof fn lemma_earlier_rounds(corpus: Seq<Seq<char>>, target: usize, rounds: Seq<Round>)
    requires
        unsolved_play(corpus, target, rounds),
        rounds.len() > 0,
    ensures
        unsolved_play(corpus, target, rounds.drop_last()),
{
    let earlier = rounds.drop_last();
    assert forall|i: int| 0 <= i < earlier.len() implies {
        let state = after_rounds(corpus, start_of_game(corpus.len()), earlier.take(i));
        &&& solver_guess(corpus, state, (#[trigger] earlier[i]).guess)
        &&& truthful_answer(corpus, target, state, earlier[i])
        &&& earlier[i].guess != target
    } by {
        assert(earlier.take(i) =~= rounds.take(i));
        assert(earlier[i] == rounds[i]);
    }
}

/// A test that some item fails leaves fewer items than there were.
proof fn lemma_filter_drops(items: Seq<usize>, test: spec_fn(usize) -> bool, w: usize)
    requires
        items.contains(w),
        !test(w),
    ensures
        items.filter(test).len() < items.len(),
    decreases items.len(),
{
    reveal(Seq::filter);
    let earlier = items.drop_last();
    earlier.lemma_filter_len(test);
    if items.last() != w {
        let k = choose|k: int| 0 <= k < items.len() && items[k] == w;
        assert(earlier[k] == w);
        lemma_filter_drops(earlier, test, w);
    }
}

/// A test that every item passes leaves as many items as there were.
proof fn lemma_filter_keeps_all(items: Seq<usize>, test: spec_fn(usize) -> bool)
    requires
        forall|k: int| 0 <= k < items.len() ==> test(#[trigger] items[k]),
    ensures
        items.filter(test).len() == items.len(),
    decreases items.len(),
{
    reveal(Seq::filter);
    if items.len() > 0 {
        let earlier = items.drop_last();
        assert forall|k: int| 0 <= k < earlier.len() implies test(#[trigger] earlier[k]) by {
            assert(earlier[k] == items[k]);
        }
        lemma_filter_keeps_all(earlier, test);
    }
}

/// The three answers share the candidates out among them: each candidate
/// agrees with exactly one.
pub proof fn lemma_answers_partition(
    corpus: Seq<Seq<char>>,
    candidates: Seq<usize>,
    guess: int,
    previous: int,
)
    ensures
        survivors(corpus, candidates, guess, previous, Feedback::Closer).len() + survivors(
            corpus,
            candidates,
            guess,
            previous,
            Feedback::Same,
        ).len() + survivors(corpus, candidates, guess, previous, Feedback::Farther).len()
            == candidates.len(),
        worst_case(corpus, candidates, guess, previous) <= candidates.len(),
    decreases candidates.len(),
{
    reveal(Seq::filter);
    if candidates.len() > 0 {
        lemma_answers_partition(corpus, candidates.drop_last(), guess, previous);
    }
}

/// The hidden word agrees with every truthful answer, so it stays a
/// candidate.
pub proof fn lemma_target_survives(
    corpus: Seq<Seq<char>>,
    candidates: Seq<usize>,
    target: usize,
    guess: int,
    previous: int,
)
    requires
        candidates.contains(target),
    ensures
        survivors(
            corpus,
            candidates,
            guess,
            previous,
            signal(corpus, target as int, guess, previous),
        ).contains(target),
{
    lemma_survivors_members(
        corpus,
        candidates,
        guess,
        previous,
        signal(corpus, target as int, guess, previous),
    );
}

/// Had the guess itself been hidden, the answer to it would have been
/// "closer"; had the previous guess been hidden, "farther".
proof fn lemma_signal_at_the_guesses(corpus: Seq<Seq<char>>, guess: int, previous: int)
    requires
        distinct_words(corpus),
        0 <= guess < corpus.len(),
        0 <= previous < corpus.len(),
        guess != previous,
    ensures
        signal(corpus, guess, guess, previous) == Feedback::Closer,
        signal(corpus, previous, guess, previous) == Feedback::Farther,
{
    lemma_edit_distance_self(corpus[guess]);
    lemma_edit_distance_self(corpus[previous]);
    if word_distance(corpus[guess], corpus[previous]) == 0 {
        lemma_edit_distance_zero(corpus[guess], corpus[previous]);
    }
    if word_distance(corpus[previous], corpus[guess]) == 0 {
        lemma_edit_distance_zero(corpus[previous], corpus[guess]);
    }
}

/// Guessing the previous guess again tells nothing: every candidate would
/// answer "same", so its score is the number of candidates.
proof fn lemma_score_of_repeat(corpus: Seq<Seq<char>>, candidates: Seq<usize>, previous: int)
    ensures
        worst_case(corpus, candidates, previous, previous) == candidates.len(),
{
    lemma_filter_keeps_all(candidates, agrees(corpus, previous, previous, Feedback::Same));
    lemma_answers_partition(corpus, candidates, previous, previous);
}

/// A guess other than the previous one, made while both are candidates,
/// splits them: its score is less than the number of candidates.
proof fn lemma_score_of_split(
    corpus: Seq<Seq<char>>,
    candidates: Seq<usize>,
    guess: usize,
    previous: usize,
)
    requires
        distinct_words(corpus),
        in_range(candidates, corpus.len()),
        candidates.contains(guess),
        candidates.contains(previous),
        guess != previous,
    ensures
        worst_case(corpus, candidates, guess as int, previous as int) < candidates.len(),
{
    lemma_signal_at_the_guesses(corpus, guess as int, previous as int);
    lemma_answers_partition(corpus, candidates, guess as int, previous as int);
    lemma_survivors_members(corpus, candidates, guess as int, previous as int, Feedback::Closer);
    lemma_survivors_members(corpus, candidates, guess as int, previous as int, Feedback::Farther);
    // The guess itself would answer "closer" and the previous guess "farther":
    // neither of these two answers leaves every candidate, and "same" leaves
    // neither of the two.
    assert(survivors(corpus, candidates, guess as int, previous as int, Feedback::Closer).contains(
        guess,
    ));
    assert(survivors(
        corpus,
        candidates,
        guess as int,
        previous as int,
        Feedback::Farther,
    ).contains(previous));
}

/// The solver does not repeat its previous guess while that guess and the
/// hidden word are both candidates.
pub proof fn lemma_solver_moves_on(
    corpus: Seq<Seq<char>>,
    candidates: Seq<usize>,
    target: usize,
    previous: usize,
    guess: usize,
)
    requires
        distinct_words(corpus),
        in_range(candidates, corpus.len()),
        candidates.contains(target),
        candidates.contains(previous),
        target != previous,
        solver_guess(corpus, GameState { candidates, previous: Some(previous) }, guess),
    ensures
        guess != previous,
{
    let k = choose|k: int|
        #[trigger] minimax_position(corpus, candidates, previous as int, k) && candidates[k]
            == guess;
    let m = choose|m: int| 0 <= m < candidates.len() && candidates[m] == target;
    lemma_score_of_split(corpus, candidates, target, previous);
    lemma_score_of_repeat(corpus, candidates, previous as int);
    assert(worst_case(corpus, candidates, candidates[k] as int, previous as int) <= worst_case(
        corpus,
        candidates,
        candidates[m] as int,
        previous as int,
    ));
}

/// What a game has left to lose: twice the number of candidates, less one
/// when the previous guess is still among them.
pub open spec fn slack(state: GameState) -> int {
    2 * state.candidates.len() - match state.previous {
        Some(p) => if state.candidates.contains(p) {
            1int
        } else {
            0int
        },
        None => 0int,
    }
}

/// Progress: a round whose guess is a candidate other than the previous
/// guess, answered by any signal, lowers the slack.
pub proof fn lemma_round_lowers_slack(
    corpus: Seq<Seq<char>>,
    candidates: Seq<usize>,
    previous: usize,
    round: Round,
)
    requires
        distinct_words(corpus),
        in_range(candidates, corpus.len()),
        previous < corpus.len(),
        candidates.contains(round.guess),
        round.guess != previous,
    ensures
        slack(after_round(corpus, GameState { candidates, previous: Some(previous) }, round))
            < slack(GameState { candidates, previous: Some(previous) }),
{
    let g = round.guess as int;
    let p = previous as int;
    let test = agrees(corpus, g, p, round.feedback);
    lemma_signal_at_the_guesses(corpus, g, p);
    lemma_survivors_members(corpus, candidates, g, p, round.feedback);
    if candidates.contains(previous) {
        // The guess agrees with "closer" only and the previous guess with
        // "farther" only, so every answer drops one of the two.
        if round.feedback == Feedback::Farther {
            lemma_filter_drops(candidates, test, round.guess);
        } else {
            lemma_filter_drops(candidates, test, previous);
        }
    } else if round.feedback != Feedback::Closer {
        // The guess is dropped.
        lemma_filter_drops(candidates, test, round.guess);
    }
    // Otherwise the guess stays, and is the previous guess from now on.
}

/// Where an unsolved game stands: the candidates are positions of the
/// corpus, the previous guess is the last guess and a position of the corpus,
/// and every round so far has lowered the slack.
proof fn lemma_unsolved_play_state(corpus: Seq<Seq<char>>, target: usize, rounds: Seq<Round>)
    requires
        distinct_words(corpus),
        target < corpus.len(),
        unsolved_play(corpus, target, rounds),
    ensures
        ({
            let state = after_rounds(corpus, start_of_game(corpus.len()), rounds);
            &&& in_range(state.candidates, corpus.len())
            &&& rounds.len() == 0 ==> state == start_of_game(corpus.len())
            &&& rounds.len() > 0 ==> state.previous == Some(rounds.last().guess)
            &&& rounds.len() > 0 ==> rounds.last().guess < corpus.len()
            &&& slack(state) + rounds.len() <= 2 * corpus.len()
        }),
    decreases rounds.len(),
{
    let start = start_of_game(corpus.len());
    if rounds.len() > 0 {
        let earlier = rounds.drop_last();
        let round = rounds.last();
        lemma_earlier_rounds(corpus, target, rounds);
        lemma_unsolved_play_state(corpus, target, earlier);
        lemma_target_stays(corpus, target, earlier);
        let before = after_rounds(corpus, start, earlier);
        let after = after_round(corpus, before, round);
        // The last round was played in the state that the earlier rounds led to.
        assert(rounds.take(rounds.len() - 1) =~= earlier);
        assert(solver_guess(corpus, before, round.guess));
        assert(before.candidates.contains(round.guess));
        match before.previous {
            None => {
                // The first round: nothing is dropped.
            },
            Some(p) => {
                if before.candidates.contains(p) {
                    lemma_solver_moves_on(corpus, before.candidates, target, p, round.guess);
                }
                lemma_round_lowers_slack(corpus, before.candidates, p, round);
                lemma_survivors_members(
                    corpus,
                    before.candidates,
                    round.guess as int,
                    p as int,
                    round.feedback,
                );
                assert forall|i: int| 0 <= i < after.candidates.len() implies #[trigger]
                    after.candidates[i] < corpus.len() by {
                    assert(before.candidates.contains(after.candidates[i]));
                }
            },
        }
    }
}

/// Termination: in a game on a corpus of `n` distinct words against a
/// truthful oracle, the hidden word stays a candidate, so the solver always
/// has a guess to make, and at most `2n - 2` guesses miss the hidden word:
/// it is guessed in round `2n - 1` at the latest.
pub proof fn lemma_truthful_game_is_short(
    corpus: Seq<Seq<char>>,
    target: usize,
    rounds: Seq<Round>,
)
    requires
        distinct_words(corpus),
        target < corpus.len(),
        unsolved_play(corpus, target, rounds),
    ensures
        after_rounds(corpus, start_of_game(corpus.len()), rounds).candidates.contains(target),
        rounds.len() + 2 <= 2 * corpus.len(),
{
    lemma_unsolved_play_state(corpus, target, rounds);
    lemma_target_stays(corpus, target, rounds);
    let state = after_rounds(corpus, start_of_game(corpus.len()), rounds);
    if rounds.len() > 0 {
        // The last guess missed the hidden word. Where it is still a
        // candidate there are two candidates at least, so that the slack is 2
        // or more either way.
        let p = rounds.last().guess;
        assert(p != target);
        if state.candidates.contains(p) {
            let i = choose|i: int| 0 <= i < state.candidates.len() && state.candidates[i] == p;
            let j = choose|j: int|
                0 <= j < state.candidates.len() && state.candidates[j] == target;
            assert(i != j);
        }
    }
}

/// The number of candidates after the first `i` of the rounds of a game.
pub open spec fn candidates_after(corpus: Seq<Seq<char>>, rounds: Seq<Round>, i: int) -> nat {
    after_rounds(corpus, start_of_game(corpus.len()), rounds.take(i)).candidates.len()
}

/// Whether every round after the first left fewer candidates than it found.
pub open spec fn every_round_drops(corpus: Seq<Seq<char>>, rounds: Seq<Round>) -> bool {
    forall|i: int|
        1 <= i < rounds.len() ==> candidates_after(corpus, rounds, i + 1) < #[trigger]
            candidates_after(corpus, rounds, i)
}

/// Against a truthful oracle the hidden word is a candidate after every
/// round.
pub proof fn lemma_target_stays(corpus: Seq<Seq<char>>, target: usize, rounds: Seq<Round>)
    requires
        target < corpus.len(),
        unsolved_play(corpus, target, rounds),
    ensures
        after_rounds(corpus, start_of_game(corpus.len()), rounds).candidates.contains(target),
    decreases rounds.len(),
{
    let start = start_of_game(corpus.len());
    if rounds.len() == 0 {
        assert(start.candidates[target as int] == target);
    } else {
        let earlier = rounds.drop_last();
        let round = rounds.last();
        lemma_earlier_rounds(corpus, target, rounds);
        lemma_target_stays(corpus, target, earlier);
        let before = after_rounds(corpus, start, earlier);
        assert(rounds.take(rounds.len() - 1) =~= earlier);
        assert(truthful_answer(corpus, target, before, round));
        if let Some(p) = before.previous {
            lemma_target_survives(
                corpus,
                before.candidates,
                target,
                round.guess as int,
                p as int,
            );
        }
    }
}

/// Where every round after the first drops a candidate, a game on a corpus
/// of `n` words against a truthful oracle has at most `n` guesses that miss
/// the hidden word, and after `n` such guesses the hidden word is the one
/// candidate left.
pub proof fn lemma_shrinking_game_is_short(
    corpus: Seq<Seq<char>>,
    target: usize,
    rounds: Seq<Round>,
)
    requires
        target < corpus.len(),
        unsolved_play(corpus, target, rounds),
        every_round_drops(corpus, rounds),
    ensures
        rounds.len() <= corpus.len(),
        after_rounds(corpus, start_of_game(corpus.len()), rounds).candidates.contains(target),
        rounds.len() == corpus.len() ==> after_rounds(
            corpus,
            start_of_game(corpus.len()),
            rounds,
        ).candidates.len() == 1,
{
    lemma_target_stays(corpus, target, rounds);
    lemma_shrinking_count(corpus, rounds, rounds.len() as int);
    assert(rounds.take(rounds.len() as int) =~= rounds);
}

/// Where every round after the first drops a candidate, the first `k` rounds
/// leave `n + 1 - k` candidates at most.
proof fn lemma_shrinking_count(corpus: Seq<Seq<char>>, rounds: Seq<Round>, k: int)
    requires
        every_round_drops(corpus, rounds),
        0 <= k <= rounds.len(),
    ensures
        k == 0 ==> candidates_after(corpus, rounds, k) == corpus.len(),
        k > 0 ==> candidates_after(corpus, rounds, k) + k <= corpus.len() + 1,
    decreases k,
{
    let start = start_of_game(corpus.len());
    if k == 0 {
        assert(rounds.take(0) =~= Seq::<Round>::empty());
    } else {
        lemma_shrinking_count(corpus, rounds, k - 1);
        if k == 1 {
            // The first round drops nothing.
            assert(rounds.take(0) =~= Seq::<Round>::empty());
            assert(rounds.take(1).drop_last() =~= rounds.take(0));
        } else {
            assert(candidates_after(corpus, rounds, (k - 1) + 1) < candidates_after(
                corpus,
                rounds,
                k - 1,
            ));
        }
    }
}

} // verus!
