//! Laws of whole games: what holds of the candidates over any number of
//! rounds, and how long a game against a truthful oracle can last.

use crate::feedback::Feedback;
use crate::solver::survivors;
use crate::solver::lemma_survivors_members;
use vstd::prelude::*;

verus! {

/// Every position of a corpus of `n` words, in order: the candidates at the
/// start of a game.
pub open spec fn all_positions(n: nat) -> Seq<usize> {
    Seq::new(n, |i: int| i as usize)
}

/// The candidates that an answer leaves: with no guess before this one, all
/// of them.
pub open spec fn after_answer(
    corpus: Seq<Seq<char>>,
    candidates: Seq<usize>,
    previous: Option<usize>,
    guess: usize,
    feedback: Feedback,
) -> Seq<usize> {
    match previous {
        Some(p) => survivors(corpus, candidates, guess as int, p as int, feedback),
        None => candidates,
    }
}

/// The state of a game: the candidates, and the guess before this one.
pub struct GameState {
    pub candidates: Seq<usize>,
    pub previous: Option<usize>,
}

/// One answered round: the guess, and the oracle's signal for it.
pub struct Round {
    pub guess: usize,
    pub feedback: Feedback,
}

/// The state at the start of a game on a corpus of `n` words.
pub open spec fn start_of_game(n: nat) -> GameState {
    GameState { candidates: all_positions(n), previous: None }
}

/// The state after one answered round.
pub open spec fn after_round(corpus: Seq<Seq<char>>, state: GameState, round: Round) -> GameState {
    GameState {
        candidates: after_answer(
            corpus,
            state.candidates,
            state.previous,
            round.guess,
            round.feedback,
        ),
        previous: Some(round.guess),
    }
}

/// The state after a sequence of answered rounds.
pub open spec fn after_rounds(corpus: Seq<Seq<char>>, state: GameState, rounds: Seq<Round>)
    -> GameState
    decreases rounds.len(),
{
    if rounds.len() == 0 {
        state
    } else {
        after_round(corpus, after_rounds(corpus, state, rounds.drop_last()), rounds.last())
    }
}

/// One round never adds a candidate.
pub proof fn lemma_round_shrinks(corpus: Seq<Seq<char>>, state: GameState, round: Round)
    ensures
        after_round(corpus, state, round).candidates.len() <= state.candidates.len(),
        forall|w: usize|
            after_round(corpus, state, round).candidates.contains(w) ==> state.candidates.contains(
                w,
            ),
{
    match state.previous {
        Some(p) => {
            lemma_survivors_members(
                corpus,
                state.candidates,
                round.guess as int,
                p as int,
                round.feedback,
            );
        },
        None => {},
    }
}

/// Monotonic shrink: whatever the guesses and the answers, the candidates
/// after all the rounds are no more than after the first `k` of them, and
/// each of them was a candidate then. So a word that a round removes is
/// absent after every later round.
pub proof fn lemma_candidates_only_shrink(
    corpus: Seq<Seq<char>>,
    state: GameState,
    rounds: Seq<Round>,
    k: int,
)
    requires
        0 <= k <= rounds.len(),
    ensures
        after_rounds(corpus, state, rounds).candidates.len() <= after_rounds(
            corpus,
            state,
            rounds.take(k),
        ).candidates.len(),
        forall|w: usize|
            after_rounds(corpus, state, rounds).candidates.contains(w) ==> after_rounds(
                corpus,
                state,
                rounds.take(k),
            ).candidates.contains(w),
    decreases rounds.len(),
{
    if k == rounds.len() {
        assert(rounds.take(k) =~= rounds);
    } else {
        let earlier = rounds.drop_last();
        assert(earlier.take(k) =~= rounds.take(k));
        lemma_candidates_only_shrink(corpus, state, earlier, k);
        lemma_round_shrinks(corpus, after_rounds(corpus, state, earlier), rounds.last());
        assert forall|w: usize|
            after_rounds(corpus, state, rounds).candidates.contains(w) implies after_rounds(
            corpus,
            state,
            rounds.take(k),
        ).candidates.contains(w) by {
            assert(after_rounds(corpus, state, earlier).candidates.contains(w));
        }
    }
}

} // verus!
