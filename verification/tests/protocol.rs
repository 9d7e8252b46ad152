use hotter_colder::feedback::Feedback;
use hotter_colder::feedback::Response;
use hotter_colder::feedback::RoundOutcome;
use hotter_colder::protocol::is_final_payload;
use hotter_colder::protocol::next_step;
use hotter_colder::protocol::parse_reply;
use hotter_colder::protocol::payload_reply;
use hotter_colder::protocol::payload_text;
use hotter_colder::protocol::NextStep;
use hotter_colder::protocol::ProtocolError;
use hotter_colder::protocol::MARK_CLOSER;
use hotter_colder::protocol::MARK_CORRECT;
use hotter_colder::protocol::MARK_FARTHER;
use hotter_colder::protocol::MARK_SAME;

#[test]
fn markers_are_the_four_faces() {
    assert_eq!(MARK_CLOSER, '🥵');
    assert_eq!(MARK_FARTHER, '🥶');
    assert_eq!(MARK_SAME, '😐');
    assert_eq!(MARK_CORRECT, '🥳');
}

#[test]
fn ordinal_replies_are_read_from_the_first_character() {
    assert_eq!(parse_reply("🥵"), Ok(Response::Order(Feedback::Closer)));
    assert_eq!(parse_reply("🥶"), Ok(Response::Order(Feedback::Farther)));
    assert_eq!(parse_reply("😐"), Ok(Response::Order(Feedback::Same)));
    assert_eq!(parse_reply("🥵\n"), Ok(Response::Order(Feedback::Closer)));
    assert_eq!(parse_reply("🥶 colder\n"), Ok(Response::Order(Feedback::Farther)));
}

#[test]
fn empty_reply_means_out_of_guesses() {
    assert_eq!(parse_reply(""), Ok(Response::OutOfGuesses));
}

#[test]
fn success_reply_carries_the_payload_verbatim() {
    assert_eq!(
        parse_reply("🥳 flag{test}"),
        Ok(Response::Correct("flag{test}".to_string()))
    );
}

#[test]
fn payload_is_trimmed_of_surrounding_white_space() {
    assert_eq!(
        parse_reply("🥳 flag{test}\n"),
        Ok(Response::Correct("flag{test}".to_string()))
    );
    assert_eq!(
        parse_reply("🥳  \t flag{a b}\u{2003}\r\n"),
        Ok(Response::Correct("flag{a b}".to_string()))
    );
    assert_eq!(parse_reply("🥳 "), Ok(Response::Correct(String::new())));
}

#[test]
fn payload_starts_after_the_first_space_only() {
    assert_eq!(
        parse_reply("🥳 well done: flag{x}\n"),
        Ok(Response::Correct("well done: flag{x}".to_string()))
    );
    assert_eq!(
        parse_reply("🥳you win flag{x}"),
        Ok(Response::Correct("win flag{x}".to_string()))
    );
}

#[test]
fn success_without_payload_is_a_protocol_error() {
    assert_eq!(parse_reply("🥳"), Err(ProtocolError::MissingPayload));
    assert_eq!(parse_reply("🥳flag{test}\n"), Err(ProtocolError::MissingPayload));
}

#[test]
fn unknown_marker_is_a_protocol_error() {
    assert_eq!(parse_reply("hello"), Err(ProtocolError::UnknownMarker));
    assert_eq!(parse_reply(" 🥵"), Err(ProtocolError::UnknownMarker));
    assert_eq!(parse_reply("\n"), Err(ProtocolError::UnknownMarker));
    assert_eq!(parse_reply("😀 flag{test}"), Err(ProtocolError::UnknownMarker));
}

#[test]
fn payload_text_is_what_follows_the_first_space() {
    assert_eq!(payload_text("a b c"), Some("b c"));
    assert_eq!(payload_text(" lead"), Some("lead"));
    assert_eq!(payload_text("trail "), Some(""));
    assert_eq!(payload_text("🥳 ünï cødé"), Some("ünï cødé"));
    assert_eq!(payload_text("none"), None);
    assert_eq!(payload_text(""), None);
    assert_eq!(payload_text("tab\tis no space"), Some("no space"));
}

#[test]
fn payload_reply_wraps_the_text() {
    assert_eq!(payload_reply("flag{test}"), Response::Correct("flag{test}".to_string()));
    assert_eq!(payload_reply(""), Response::Correct(String::new()));
}

#[test]
fn final_payload_ends_with_a_closing_brace() {
    assert!(is_final_payload("flag{test}"));
    assert!(is_final_payload("}"));
    assert!(!is_final_payload("flag{test"));
    assert!(!is_final_payload("flag{test} "));
    assert!(!is_final_payload(""));
    assert!(!is_final_payload("}é"));
}

#[test]
fn success_signal_is_recognised_as_the_stop_condition() {
    let reply = parse_reply("🥳 flag{test}\n").unwrap();
    let payload = match reply {
        Response::Correct(p) => p,
        other => panic!("unexpected reply {:?}", other),
    };
    assert_eq!(payload, "flag{test}");
    assert_eq!(next_step(&RoundOutcome::Solved(payload)), NextStep::Stop);
}

#[test]
fn next_step_follows_the_outcome() {
    assert_eq!(next_step(&RoundOutcome::Continue), NextStep::GuessAgain);
    assert_eq!(next_step(&RoundOutcome::Exhausted), NextStep::Reconnect);
    assert_eq!(next_step(&RoundOutcome::Solved("nice try".to_string())), NextStep::NewGame);
    assert_eq!(next_step(&RoundOutcome::Solved(String::new())), NextStep::NewGame);
    assert_eq!(next_step(&RoundOutcome::Solved("flag{x}".to_string())), NextStep::Stop);
}

#[test]
fn every_white_space_character_is_trimmed_at_both_ends() {
    let white: Vec<char> = vec![
        '\u{9}', '\u{a}', '\u{b}', '\u{c}', '\u{d}', ' ', '\u{85}', '\u{a0}', '\u{1680}',
        '\u{2000}', '\u{2001}', '\u{2002}', '\u{2003}', '\u{2004}', '\u{2005}', '\u{2006}',
        '\u{2007}', '\u{2008}', '\u{2009}', '\u{200a}', '\u{2028}', '\u{2029}', '\u{202f}',
        '\u{205f}', '\u{3000}',
    ];
    assert_eq!(white.len(), 25);
    for &c in &white {
        let text = format!("🥳 {}{}flag{{x y}}{}{}", c, c, c, c);
        assert_eq!(parse_reply(&text), Ok(Response::Correct("flag{x y}".to_string())));
    }
}

#[test]
fn only_white_space_is_trimmed() {
    // Every character that is trimmed is one of the 25, and none of them is
    // left: checked over all characters.
    let white = |c: char| {
        ('\u{9}'..='\u{d}').contains(&c)
            || c == ' '
            || c == '\u{85}'
            || c == '\u{a0}'
            || c == '\u{1680}'
            || ('\u{2000}'..='\u{200a}').contains(&c)
            || c == '\u{2028}'
            || c == '\u{2029}'
            || c == '\u{202f}'
            || c == '\u{205f}'
            || c == '\u{3000}'
    };
    let mut text = String::new();
    for code in 0..=0x10ffffu32 {
        if let Some(c) = char::from_u32(code) {
            text.clear();
            text.push_str("🥳 ");
            text.push(c);
            text.push('x');
            text.push(c);
            let expected = if white(c) { "x".to_string() } else { format!("{}x{}", c, c) };
            assert_eq!(parse_reply(&text), Ok(Response::Correct(expected)));
        }
    }
}

#[test]
fn white_space_inside_the_payload_stays() {
    assert_eq!(
        parse_reply("🥳 \n a\u{3000}b \t c \r\n"),
        Ok(Response::Correct("a\u{3000}b \t c".to_string()))
    );
    assert_eq!(parse_reply("🥳 \u{200b}x\u{200b}"), Ok(Response::Correct("\u{200b}x\u{200b}".to_string())));
    assert_eq!(parse_reply("🥳  \t\n"), Ok(Response::Correct(String::new())));
}
