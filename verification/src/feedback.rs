//! The oracle's ordinal signal, and what a reply and a round can be.

use vstd::prelude::*;

verus! {

/// How a guess compares with the guess before it, both measured against the
/// hidden word.
#[derive(Clone, Copy, Debug, PartialEq, Eq, Hash, Structural)]
pub enum Feedback {
    /// The guess is nearer to the hidden word than the one before it.
    Closer,
    /// The guess is exactly as far from the hidden word as the one before it.
    Same,
    /// The guess is farther from the hidden word than the one before it.
    Farther,
}

/// The signal for a guess at distance `current` after a guess at distance
/// `previous`.
pub open spec fn ordinal(current: nat, previous: nat) -> Feedback {
    if current < previous {
        Feedback::Closer
    } else if current == previous {
        Feedback::Same
    } else {
        Feedback::Farther
    }
}

/// Compares the distance of a guess with that of the guess before it.
pub fn compare_distances(current: u32, previous: u32) -> (fb: Feedback)
    ensures
        fb == ordinal(current as nat, previous as nat),
{
    if current < previous {
        Feedback::Closer
    } else if current == previous {
        Feedback::Same
    } else {
        Feedback::Farther
    }
}

/// One reply of the oracle.
#[derive(Clone, Debug, PartialEq, Eq, Hash)]
pub enum Response {
    /// An ordinal signal: the game goes on.
    Order(Feedback),
    /// The guess was the hidden word; the payload comes with it.
    Correct(String),
    /// The oracle grants no further guess.
    OutOfGuesses,
}

/// How a game stands after a round.
#[derive(Clone, Debug, PartialEq, Eq, Hash)]
pub enum RoundOutcome {
    /// The game goes on with another guess.
    Continue,
    /// The hidden word was found; the payload is the game's result.
    Solved(String),
    /// The oracle ended the game; there is no payload.
    Exhausted,
}

impl RoundOutcome {
    /// The payload that the game ended with, if it ended with one.
    pub fn payload(&self) -> (p: Option<&str>)
        ensures
            match *self {
                RoundOutcome::Solved(flag) => p matches Some(s) && s@ == flag@,
                _ => p is None,
            },
    {
        match self {
            RoundOutcome::Solved(flag) => Some(flag.as_str()),
            _ => None,
        }
    }

    /// Whether the game is over.
    pub fn is_terminal(&self) -> (b: bool)
        ensures
            b == !(*self is Continue),
    {
        match self {
            RoundOutcome::Continue => false,
            _ => true,
        }
    }
}

} // verus!
