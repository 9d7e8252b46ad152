//! One game: the candidates that are left, the guess before this one, and the
//! step from an answer to the next state.

use crate::feedback::Feedback;
use crate::feedback::Response;
use crate::feedback::RoundOutcome;
use crate::game::after_answer;
use crate::game::after_round;
use crate::game::all_positions;
use crate::game::start_of_game;
use crate::game::GameState;
use crate::game::Round;
use crate::index::DistanceIndex;
use crate::solver::ascending;
use crate::solver::filter_candidates;
use crate::solver::in_range;
use crate::solver::minimax_position;
use crate::solver::pick_first_guess;
use crate::solver::pick_next_guess;
use crate::solver::signal;
use crate::solver::worst_case;
use crate::truthful::solver_guess;
use vstd::prelude::*;

verus! {

/// Why no guess can be made.
#[derive(Clone, Copy, Debug, PartialEq, Eq, Hash, Structural)]
pub enum SolverError {
    /// No word of the corpus agrees with the answers given so far.
    NoCandidatesRemain,
}

/// What the solver does next in a game.
#[derive(Clone, Debug, PartialEq, Eq, Hash)]
pub enum Turn {
    /// Send the word at this position of the corpus as the next guess.
    Guess(usize),
    /// The game is over with this outcome; no guess is sent.
    Over(RoundOutcome),
}

/// The solver's state within one game. It reads a shared index and owns its
/// candidates, which only ever shrink.
#[derive(Debug)]
pub struct Player<'a> {
    index: &'a DistanceIndex,
    words: Vec<usize>,
    previous_guess: Option<usize>,
}

impl<'a> Player<'a> {
    /// The corpus that the game is played on.
    pub closed spec fn corpus(&self) -> Seq<Seq<char>> {
        self.index@
    }

    /// The candidates: the positions of the words that agree with every
    /// answer so far.
    pub closed spec fn candidates(&self) -> Seq<usize> {
        self.words@
    }

    /// The guess before this one; none before the first answer.
    pub closed spec fn previous(&self) -> Option<usize> {
        self.previous_guess
    }

    /// The state of the game, as the laws of whole games see it.
    pub open spec fn state(&self) -> GameState {
        GameState { candidates: self.candidates(), previous: self.previous() }
    }

    /// A player is well formed when its candidates are positions of the
    /// corpus, in the order of the corpus and none twice, and its previous
    /// guess is a position of the corpus.
    pub open spec fn wf(&self) -> bool {
        &&& in_range(self.candidates(), self.corpus().len())
        &&& ascending(self.candidates())
        &&& self.previous() matches Some(p) ==> p < self.corpus().len()
    }

    #[verifier::type_invariant]
    spec fn inv(&self) -> bool {
        self.wf()
    }

    /// Starts a game: every word of the corpus is a candidate, and there is
    /// no previous guess.
    pub fn new(index: &'a DistanceIndex) -> (player: Self)
        ensures
            player.wf(),
            player.corpus() == index@,
            player.candidates() == all_positions(index@.len()),
            player.previous() is None,
            player.state() == start_of_game(index@.len()),
    {
        let n = index.len();
        let mut words: Vec<usize> = Vec::new();
        let mut i: usize = 0;
        while i < n
            invariant
                i <= n,
                n == index@.len(),
                words@ == all_positions(i as nat),
            decreases n - i,
        {
            words.push(i);
            assert(words@ =~= all_positions((i + 1) as nat));
            i += 1;
        }
        Player { index, words, previous_guess: None }
    }

    /// The index that the game reads.
    pub fn index(&self) -> (index: &'a DistanceIndex)
        ensures
            index@ == self.corpus(),
    {
        self.index
    }

    /// The candidates that are left.
    pub fn remaining(&self) -> (words: &Vec<usize>)
        ensures
            self.wf(),
            words@ == self.candidates(),
    {
        proof {
            use_type_invariant(self);
        }
        &self.words
    }

    /// The guess before this one.
    pub fn previous_guess(&self) -> (previous: Option<usize>)
        ensures
            self.wf(),
            previous == self.previous(),
    {
        proof {
            use_type_invariant(self);
        }
        self.previous_guess
    }

    /// Drops the candidates that disagree with the answer to `guess`. Before
    /// the first answer there is no guess to compare with, and every
    /// candidate stays.
    pub fn filter_words(&mut self, guess: usize, feedback: Feedback)
        requires
            guess < old(self).corpus().len(),
        ensures
            final(self).wf(),
            final(self).corpus() == old(self).corpus(),
            final(self).previous() == old(self).previous(),
            final(self).candidates() == after_answer(
                old(self).corpus(),
                old(self).candidates(),
                old(self).previous(),
                guess,
                feedback,
            ),
            final(self).candidates().len() <= old(self).candidates().len(),
            forall|w: usize|
                final(self).candidates().contains(w) ==> old(self).candidates().contains(w),
            old(self).previous() matches Some(p) ==> forall|w: usize|
                final(self).candidates().contains(w) <==> old(self).candidates().contains(w)
                    && signal(old(self).corpus(), w as int, guess as int, p as int) == feedback,
    {
        proof {
            use_type_invariant(&*self);
        }
        match self.previous_guess {
            Some(previous) => {
                let kept = filter_candidates(self.index, &self.words, guess, previous, feedback);
                self.words = kept;
            },
            None => {},
        }
    }

    /// Picks the word to guess: before the first answer any candidate, by
    /// chance; after it the candidate chosen by the minimax rule. Fails when
    /// there is no candidate to pick; `next_turn` tells the empty corpus
    /// apart from candidates that the answers have used up.
    pub fn pick_word(&self) -> (picked: Result<usize, SolverError>)
        ensures
            self.wf(),
            picked is Err <==> self.candidates().len() == 0,
            picked matches Err(e) ==> e == SolverError::NoCandidatesRemain,
            picked matches Ok(g) ==> self.candidates().contains(g),
            picked matches Ok(g) ==> solver_guess(self.corpus(), self.state(), g),
            picked matches Ok(g) ==> (self.previous() matches Some(p) ==> {
                &&& exists|k: int|
                    #[trigger] minimax_position(self.corpus(), self.candidates(), p as int, k)
                        && self.candidates()[k] == g
                &&& forall|w: usize|
                    self.candidates().contains(w) ==> worst_case(
                        self.corpus(),
                        self.candidates(),
                        g as int,
                        p as int,
                    ) <= #[trigger] worst_case(self.corpus(), self.candidates(), w as int, p as int)
            }),
    {
        proof {
            use_type_invariant(self);
        }
        let picked = match self.previous_guess {
            Some(previous) => pick_next_guess(self.index, &self.words, previous),
            None => pick_first_guess(&self.words),
        };
        match picked {
            Some(g) => {
                proof {
                    if let Some(p) = self.previous_guess {
                        let k = choose|k: int|
                            #[trigger] minimax_position(self.index@, self.words@, p as int, k)
                                && self.words@[k] == g;
                        assert(minimax_position(self.corpus(), self.state().candidates, p as int, k));
                    }
                }
                Ok(g)
            },
            None => Err(SolverError::NoCandidatesRemain),
        }
    }

    /// Decides the next turn. On an empty corpus there is nothing to guess
    /// and the game is over at once, exhausted, before any guess is sent.
    /// Where the corpus has words and the answers have left none of them as
    /// a candidate, that is an error. In every other state the turn is the
    /// guess that `pick_word` picks.
    pub fn next_turn(&self) -> (turn: Result<Turn, SolverError>)
        ensures
            self.wf(),
            self.corpus().len() == 0 ==> turn == Ok::<Turn, SolverError>(
                Turn::Over(RoundOutcome::Exhausted),
            ),
            self.corpus().len() > 0 && self.candidates().len() == 0 ==> turn == Err::<
                Turn,
                SolverError,
            >(SolverError::NoCandidatesRemain),
            self.corpus().len() > 0 && self.candidates().len() > 0 ==> (turn matches Ok(
                Turn::Guess(g),
            ) && self.candidates().contains(g) && solver_guess(self.corpus(), self.state(), g)),
    {
        proof {
            use_type_invariant(self);
        }
        if self.index.is_empty() {
            return Ok(Turn::Over(RoundOutcome::Exhausted));
        }
        match self.pick_word() {
            Ok(g) => Ok(Turn::Guess(g)),
            Err(e) => Err(e),
        }
    }

    /// Takes the oracle's reply to `guess` and moves the game on. An ordinal
    /// signal drops the candidates that disagree with it and makes `guess`
    /// the previous guess. A payload ends the game with that payload, and the
    /// end of the guesses ends it without one; neither changes the state.
    pub fn play_round(&mut self, guess: usize, reply: Response) -> (outcome: RoundOutcome)
        requires
            guess < old(self).corpus().len(),
        ensures
            final(self).wf(),
            final(self).corpus() == old(self).corpus(),
            match reply {
                Response::Order(feedback) => {
                    &&& outcome is Continue
                    &&& final(self).state() == after_round(
                        old(self).corpus(),
                        old(self).state(),
                        Round { guess, feedback },
                    )
                    &&& final(self).previous() == Some(guess)
                    &&& final(self).candidates() == after_answer(
                        old(self).corpus(),
                        old(self).candidates(),
                        old(self).previous(),
                        guess,
                        feedback,
                    )
                },
                Response::Correct(payload) => {
                    &&& outcome == RoundOutcome::Solved(payload)
                    &&& final(self).state() == old(self).state()
                },
                Response::OutOfGuesses => {
                    &&& outcome is Exhausted
                    &&& final(self).state() == old(self).state()
                },
            },
            final(self).candidates().len() <= old(self).candidates().len(),
            forall|w: usize|
                final(self).candidates().contains(w) ==> old(self).candidates().contains(w),
    {
        proof {
            use_type_invariant(&*self);
        }
        match reply {
            Response::Order(feedback) => {
                self.filter_words(guess, feedback);
                self.previous_guess = Some(guess);
                RoundOutcome::Continue
            },
            Response::Correct(payload) => RoundOutcome::Solved(payload),
            Response::OutOfGuesses => RoundOutcome::Exhausted,
        }
    }
}

} // verus!
