//! A solver for the hotter/colder word game.
//!
//! An oracle holds a hidden word of a fixed corpus. Each guess is answered with
//! an ordinal signal: whether the guess lies closer to the hidden word than the
//! guess before it, farther from it, or exactly as far, measured in edit
//! distance. The solver keeps the set of words that agree with every answer
//! so far and picks each guess so that the largest set that any answer could
//! leave behind is as small as possible.
//!
//! - [`edit`]: edit distance, its definition and its laws.
//! - [`edits`]: edit distance as the least number of edits.
//! - [`index`]: the distance index of a corpus, built once and then only read.
//! - [`feedback`]: the ordinal signal, the oracle's replies, the outcome of a
//!   round.
//! - [`solver`]: which candidates an answer leaves, and which to guess next.
//! - [`player`]: the state of one game and its step from reply to reply.
//! - [`protocol`]: the replies as text, and when the session is over.
//! - [`game`], [`truthful`]: laws of whole games.
//! - [`parallel`], [`chance`]: the calls into rayon and rand.
//!
//! Distances are counted in characters: one edit inserts, deletes or replaces
//! one character of a word.
//!
//! The executable code is verified against the contracts stated here. What is
//! believed rather than proved are five thin wrappers around calls into other
//! code: the two Levenshtein routines of `triple_accel` in [`edit`], the
//! parallel map of `rayon` in [`parallel`], the random choice of `rand` in
//! [`chance`], and `str::trim` in [`protocol`].

pub mod chance;
pub mod edit;
pub mod edits;
pub mod feedback;
pub mod game;
pub mod index;
pub mod parallel;
pub mod player;
pub mod protocol;
pub mod solver;
pub mod truthful;
