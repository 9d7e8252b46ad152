//! The oracle's replies as text: which reply a text is, and when a payload
//! ends the whole session.

use crate::feedback::Feedback;
use crate::feedback::Response;
use crate::feedback::RoundOutcome;
use vstd::prelude::*;
use vstd::string::StrSliceExecFns;
use vstd::string::StringExecFns;

verus! {

/// The first character of a reply that says "closer": a hot face.
pub const MARK_CLOSER: char = '\u{1F975}';

/// The first character of a reply that says "farther": a cold face.
pub const MARK_FARTHER: char = '\u{1F976}';

/// The first character of a reply that says "same": a neutral face.
pub const MARK_SAME: char = '\u{1F610}';

/// The first character of a reply that carries the payload: a partying face.
pub const MARK_CORRECT: char = '\u{1F973}';

/// The character that ends the payload which ends the session.
pub const PAYLOAD_END: char = '}';

/// Why a text is no reply.
#[derive(Clone, Copy, Debug, PartialEq, Eq, Hash, Structural)]
pub enum ProtocolError {
    /// The reply announces a payload and holds no space after which it could
    /// stand.
    MissingPayload,
    /// The reply starts with a character that announces nothing.
    UnknownMarker,
}

/// Whether a character is white space: one of the 25 characters that have
/// the Unicode property `White_Space`.
pub open spec fn is_white_space(c: char) -> bool {
    ||| '\u{9}' <= c <= '\u{d}'
    ||| c == ' '
    ||| c == '\u{85}'
    ||| c == '\u{a0}'
    ||| c == '\u{1680}'
    ||| '\u{2000}' <= c <= '\u{200a}'
    ||| c == '\u{2028}'
    ||| c == '\u{2029}'
    ||| c == '\u{202f}'
    ||| c == '\u{205f}'
    ||| c == '\u{3000}'
}

/// A text without the white space at its start.
pub open spec fn trimmed_start(text: Seq<char>) -> Seq<char>
    decreases text.len(),
{
    if text.len() > 0 && is_white_space(text[0]) {
        trimmed_start(text.skip(1))
    } else {
        text
    }
}

/// A text without the white space at its end.
pub open spec fn trimmed_end(text: Seq<char>) -> Seq<char>
    decreases text.len(),
{
    if text.len() > 0 && is_white_space(text.last()) {
        trimmed_end(text.drop_last())
    } else {
        text
    }
}

/// A text without the white space at its two ends.
pub open spec fn trimmed(text: Seq<char>) -> Seq<char> {
    trimmed_end(trimmed_start(text))
}

/// Calls `str::trim`, which returns its argument without leading and trailing
/// white space, white space being the characters with the Unicode property
/// `White_Space`. The contract spells that property out as the 25 characters
/// that have it.
#[verifier::external_body]
pub(crate) fn trim_text<'a>(text: &'a str) -> (inner: &'a str)
    ensures
        inner@ == trimmed(text@),
{
    text.trim()
}

/// The part of a text that follows its first space; the empty text where
/// there is no space.
pub open spec fn after_space(text: Seq<char>) -> Seq<char>
    decreases text.len(),
{
    if text.len() == 0 {
        text
    } else if text[0] == ' ' {
        text.skip(1)
    } else {
        after_space(text.skip(1))
    }
}

/// Finds the part of a text that follows its first space.
pub fn payload_text<'a>(text: &'a str) -> (found: Option<&'a str>)
    ensures
        found is Some <==> text@.contains(' '),
        found matches Some(rest) ==> rest@ == after_space(text@),
{
    let n = text.unicode_len();
    let mut i: usize = 0;
    assert(text@.skip(0) =~= text@);
    while i < n
        invariant
            i <= n,
            n == text@.len(),
            forall|k: int| 0 <= k < i ==> text@[k] != ' ',
            after_space(text@) == after_space(text@.skip(i as int)),
        decreases n - i,
    {
        let c = text.get_char(i);
        let ghost tail = text@.skip(i as int);
        assert(tail[0] == c);
        assert(tail.skip(1) =~= text@.skip(i + 1));
        if c == ' ' {
            let rest = text.substring_char(i + 1, n);
            assert(rest@ =~= text@.skip(i + 1));
            assert(text@[i as int] == ' ');
            return Some(rest);
        }
        i += 1;
    }
    assert forall|k: int| 0 <= k < text@.len() implies text@[k] != ' ' by {}
    None
}

/// Builds the reply that ends a game with its payload.
pub fn payload_reply(payload: &str) -> (reply: Response)
    ensures
        reply matches Response::Correct(p) && p@ == payload@,
{
    Response::Correct(String::from_str(payload))
}

/// Reads one reply of the oracle. The empty text says that no guess is left.
/// Otherwise the first character decides: one of the three faces gives an
/// ordinal signal; the partying face announces the payload, which is what
/// follows the first space, without the white space around it; any other
/// character is an error, and so is a payload that was announced and is not
/// there.
pub fn parse_reply(text: &str) -> (parsed: Result<Response, ProtocolError>)
    ensures
        text@.len() == 0 ==> parsed == Ok::<Response, ProtocolError>(Response::OutOfGuesses),
        text@.len() > 0 && text@[0] == MARK_CLOSER ==> parsed == Ok::<Response, ProtocolError>(
            Response::Order(Feedback::Closer),
        ),
        text@.len() > 0 && text@[0] == MARK_FARTHER ==> parsed == Ok::<Response, ProtocolError>(
            Response::Order(Feedback::Farther),
        ),
        text@.len() > 0 && text@[0] == MARK_SAME ==> parsed == Ok::<Response, ProtocolError>(
            Response::Order(Feedback::Same),
        ),
        text@.len() > 0 && text@[0] == MARK_CORRECT && text@.contains(' ') ==> (parsed matches Ok(
            Response::Correct(p),
        ) && p@ == trimmed(after_space(text@))),
        text@.len() > 0 && text@[0] == MARK_CORRECT && !text@.contains(' ') ==> parsed == Err::<
            Response,
            ProtocolError,
        >(ProtocolError::MissingPayload),
        text@.len() > 0 && text@[0] != MARK_CLOSER && text@[0] != MARK_FARTHER && text@[0]
            != MARK_SAME && text@[0] != MARK_CORRECT ==> parsed == Err::<Response, ProtocolError>(
            ProtocolError::UnknownMarker,
        ),
{
    if text.unicode_len() == 0 {
        return Ok(Response::OutOfGuesses);
    }
    let marker = text.get_char(0);
    if marker == MARK_CLOSER {
        Ok(Response::Order(Feedback::Closer))
    } else if marker == MARK_FARTHER {
        Ok(Response::Order(Feedback::Farther))
    } else if marker == MARK_SAME {
        Ok(Response::Order(Feedback::Same))
    } else if marker == MARK_CORRECT {
        match payload_text(text) {
            Some(rest) => Ok(payload_reply(trim_text(rest))),
            None => Err(ProtocolError::MissingPayload),
        }
    } else {
        Err(ProtocolError::UnknownMarker)
    }
}

/// Whether a payload is the one that the session is played for: it ends with
/// a closing brace.
pub fn is_final_payload(payload: &str) -> (b: bool)
    ensures
        b == (payload@.len() > 0 && payload@.last() == PAYLOAD_END),
{
    let n = payload.unicode_len();
    n > 0 && payload.get_char(n - 1) == PAYLOAD_END
}

/// What the surrounding program does once a round is over.
#[derive(Clone, Copy, Debug, PartialEq, Eq, Hash, Structural)]
pub enum NextStep {
    /// Ask the solver for another guess in the same game.
    GuessAgain,
    /// The payload is the final one: stop.
    Stop,
    /// The game is over with a payload that is not the final one: start a
    /// new game on the same connection.
    NewGame,
    /// The oracle granted no further guess: connect again, and start a new
    /// game there.
    Reconnect,
}

/// Decides how the session goes on after a round.
pub fn next_step(outcome: &RoundOutcome) -> (step: NextStep)
    ensures
        step == match *outcome {
            RoundOutcome::Continue => NextStep::GuessAgain,
            RoundOutcome::Solved(payload) => if payload@.len() > 0 && payload@.last()
                == PAYLOAD_END {
                NextStep::Stop
            } else {
                NextStep::NewGame
            },
            RoundOutcome::Exhausted => NextStep::Reconnect,
        },
{
    match outcome {
        RoundOutcome::Continue => NextStep::GuessAgain,
        RoundOutcome::Solved(payload) => if is_final_payload(payload.as_str()) {
            NextStep::Stop
        } else {
            NextStep::NewGame
        },
        RoundOutcome::Exhausted => NextStep::Reconnect,
    }
}

} // verus!
