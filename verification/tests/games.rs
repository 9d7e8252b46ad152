use hotter_colder::feedback::compare_distances;
use hotter_colder::feedback::Feedback;
use hotter_colder::feedback::Response;
use hotter_colder::feedback::RoundOutcome;
use hotter_colder::index::make_distance_cache;
use hotter_colder::index::DistanceIndex;
use hotter_colder::player::Player;
use hotter_colder::player::SolverError;
use hotter_colder::player::Turn;
use hotter_colder::protocol::parse_reply;

const CAT: usize = 0;
const COT: usize = 1;
const DOG: usize = 2;
const DOT: usize = 3;

fn index_of(words: &[&str]) -> DistanceIndex {
    make_distance_cache(words.iter().map(|w| w.to_string()).collect())
}

fn four_words() -> DistanceIndex {
    index_of(&["cat", "cot", "dog", "dot"])
}

fn words_left(player: &Player, index: &DistanceIndex) -> Vec<String> {
    player.remaining().iter().map(|&w| index.word(w).to_string()).collect()
}

/// What an oracle hiding `target` answers to `guess`.
fn truthful_reply(
    index: &DistanceIndex,
    target: usize,
    guess: usize,
    previous: Option<usize>,
) -> Response {
    if guess == target {
        return Response::Correct(format!("found {}", index.word(target)));
    }
    match previous {
        Some(p) => Response::Order(compare_distances(
            index.distance(target, guess),
            index.distance(target, p),
        )),
        None => Response::Order(Feedback::Same),
    }
}

/// Plays a game against a truthful oracle. Returns the guesses made, the last
/// of them the hidden word, and the number of candidates before each guess.
fn play(index: &DistanceIndex, target: usize, first_guess: usize) -> (Vec<usize>, Vec<usize>) {
    let mut player = Player::new(index);
    let mut guesses = Vec::new();
    let mut sizes = Vec::new();
    loop {
        sizes.push(player.remaining().len());
        let guess = if guesses.is_empty() { first_guess } else { player.pick_word().unwrap() };
        guesses.push(guess);
        let reply = truthful_reply(index, target, guess, player.previous_guess());
        match player.play_round(guess, reply) {
            RoundOutcome::Continue => {},
            RoundOutcome::Solved(payload) => {
                assert_eq!(payload, format!("found {}", index.word(target)));
                return (guesses, sizes);
            },
            RoundOutcome::Exhausted => panic!("a truthful oracle never runs out here"),
        }
        assert!(player.remaining().contains(&target));
        assert!(player.remaining().len() <= sizes[sizes.len() - 1]);
        assert!(guesses.len() < 10 * index.len());
    }
}

#[test]
fn new_game_starts_with_the_full_corpus() {
    let index = four_words();
    let player = Player::new(&index);
    assert_eq!(player.remaining(), &vec![CAT, COT, DOG, DOT]);
    assert_eq!(player.previous_guess(), None);
    assert_eq!(player.index().len(), 4);
    assert_eq!(words_left(&player, &index), vec!["cat", "cot", "dog", "dot"]);
}

#[test]
fn first_answer_filters_nothing() {
    let index = four_words();
    for feedback in [Feedback::Closer, Feedback::Same, Feedback::Farther] {
        let mut player = Player::new(&index);
        let outcome = player.play_round(CAT, Response::Order(feedback));
        assert_eq!(outcome, RoundOutcome::Continue);
        assert_eq!(player.remaining(), &vec![CAT, COT, DOG, DOT]);
        assert_eq!(player.previous_guess(), Some(CAT));
    }
}

#[test]
fn filter_words_before_the_first_answer_keeps_everything() {
    let index = four_words();
    let mut player = Player::new(&index);
    player.filter_words(DOG, Feedback::Closer);
    assert_eq!(player.remaining(), &vec![CAT, COT, DOG, DOT]);
    assert_eq!(player.previous_guess(), None);
}

#[test]
fn filter_words_leaves_the_previous_guess_alone() {
    let index = four_words();
    let mut player = Player::new(&index);
    player.play_round(CAT, Response::Order(Feedback::Same));
    player.filter_words(COT, Feedback::Closer);
    assert_eq!(player.remaining(), &vec![COT, DOG, DOT]);
    assert_eq!(player.previous_guess(), Some(CAT));
}

#[test]
fn cat_then_cot_closer_retains_cot_dog_dot() {
    // The hidden word is "dog". After "cat", the guess "cot" is closer to it
    // (2 against 3), and what stays is every word that is closer to "cot"
    // than to "cat".
    let index = four_words();
    let mut player = Player::new(&index);
    player.play_round(CAT, Response::Order(Feedback::Farther));
    let reply = truthful_reply(&index, DOG, COT, player.previous_guess());
    assert_eq!(reply, Response::Order(Feedback::Closer));
    assert_eq!(player.play_round(COT, reply), RoundOutcome::Continue);
    assert_eq!(words_left(&player, &index), vec!["cot", "dog", "dot"]);
    assert_eq!(player.previous_guess(), Some(COT));
}

#[test]
fn minimax_game_on_four_words() {
    // Hidden "dot", first guess "cat": the solver goes on with "dog", which
    // leaves "dog" and "dot", and then with "dot".
    let index = four_words();
    let mut player = Player::new(&index);
    player.play_round(CAT, Response::Order(Feedback::Same));
    assert_eq!(player.pick_word(), Ok(DOG));
    let reply = truthful_reply(&index, DOT, DOG, player.previous_guess());
    assert_eq!(reply, Response::Order(Feedback::Closer));
    player.play_round(DOG, reply);
    assert_eq!(player.remaining(), &vec![DOG, DOT]);
    assert_eq!(player.pick_word(), Ok(DOT));
    let outcome = player.play_round(DOT, truthful_reply(&index, DOT, DOT, Some(DOG)));
    assert_eq!(outcome, RoundOutcome::Solved("found dot".to_string()));
}

#[test]
fn exhaustion_after_the_first_guess_ends_the_game_without_payload() {
    let index = four_words();
    let mut player = Player::new(&index);
    let guess = player.pick_word().unwrap();
    let reply = parse_reply("");
    assert_eq!(reply, Ok(Response::OutOfGuesses));
    let outcome = player.play_round(guess, reply.unwrap());
    assert_eq!(outcome, RoundOutcome::Exhausted);
    assert_eq!(outcome.payload(), None);
    assert!(outcome.is_terminal());
    assert_eq!(player.remaining(), &vec![CAT, COT, DOG, DOT]);
    assert_eq!(player.previous_guess(), None);
}

#[test]
fn success_payload_is_the_result_of_the_game() {
    let index = four_words();
    let mut player = Player::new(&index);
    player.play_round(CAT, Response::Order(Feedback::Farther));
    let reply = parse_reply("🥳 flag{test}\n").unwrap();
    let outcome = player.play_round(DOG, reply);
    assert_eq!(outcome, RoundOutcome::Solved("flag{test}".to_string()));
    assert_eq!(outcome.payload(), Some("flag{test}"));
    assert!(outcome.is_terminal());
    assert_eq!(player.remaining(), &vec![CAT, COT, DOG, DOT]);
    assert_eq!(player.previous_guess(), Some(CAT));
}

#[test]
fn continue_is_not_terminal_and_has_no_payload() {
    assert!(!RoundOutcome::Continue.is_terminal());
    assert_eq!(RoundOutcome::Continue.payload(), None);
}

#[test]
fn first_pick_is_a_candidate() {
    let index = four_words();
    let player = Player::new(&index);
    for _ in 0..20 {
        let g = player.pick_word().unwrap();
        assert!(g < 4);
    }
}

#[test]
fn empty_corpus_has_no_guess_to_make() {
    let index = index_of(&[]);
    let player = Player::new(&index);
    assert_eq!(player.remaining(), &Vec::<usize>::new());
    assert_eq!(player.pick_word(), Err(SolverError::NoCandidatesRemain));
}

#[test]
fn game_on_an_empty_corpus_is_exhausted_at_once() {
    let index = index_of(&[]);
    let player = Player::new(&index);
    assert_eq!(player.next_turn(), Ok(Turn::Over(RoundOutcome::Exhausted)));
}

#[test]
fn next_turn_is_a_guess_while_candidates_are_left() {
    let index = four_words();
    let mut player = Player::new(&index);
    match player.next_turn() {
        Ok(Turn::Guess(g)) => assert!(g < 4),
        other => panic!("unexpected turn {:?}", other),
    }
    player.play_round(CAT, Response::Order(Feedback::Same));
    assert_eq!(player.next_turn(), Ok(Turn::Guess(DOG)));
}

#[test]
fn next_turn_fails_when_answers_have_left_no_candidate() {
    let index = four_words();
    let mut player = Player::new(&index);
    player.play_round(CAT, Response::Order(Feedback::Same));
    player.play_round(COT, Response::Order(Feedback::Same));
    assert_eq!(player.next_turn(), Err(SolverError::NoCandidatesRemain));
}

#[test]
fn contradictory_answers_leave_no_candidates() {
    let index = four_words();
    let mut player = Player::new(&index);
    player.play_round(CAT, Response::Order(Feedback::Same));
    // No word is exactly as far from "cot" as from "cat".
    player.play_round(COT, Response::Order(Feedback::Same));
    assert_eq!(player.remaining(), &Vec::<usize>::new());
    assert_eq!(player.pick_word(), Err(SolverError::NoCandidatesRemain));
    // Later rounds bring nothing back.
    player.play_round(DOG, Response::Order(Feedback::Closer));
    assert_eq!(player.remaining(), &Vec::<usize>::new());
}

#[test]
fn candidates_never_grow_and_removed_words_stay_out() {
    let index = index_of(&["cat", "cot", "dog", "dot", "cog", "cut", "hot", "hat", "dig", "do"]);
    let n = index.len();
    let answers = [Feedback::Closer, Feedback::Farther, Feedback::Same];
    for seed in 0..60usize {
        let mut player = Player::new(&index);
        let mut before: Vec<usize> = player.remaining().clone();
        for round in 0..6usize {
            let guess = (seed * 7 + round * 3) % n;
            let feedback = answers[(seed + round * round) % 3];
            player.play_round(guess, Response::Order(feedback));
            let after: Vec<usize> = player.remaining().clone();
            assert!(after.len() <= before.len());
            assert!(after.iter().all(|w| before.contains(w)));
            assert!(after.windows(2).all(|pair| pair[0] < pair[1]));
            before = after;
        }
    }
}

#[test]
fn truthful_games_find_every_word_within_the_bound() {
    let corpora: Vec<Vec<&str>> = vec![
        vec!["only"],
        vec!["aa", "ab"],
        vec!["cat", "cot", "dog", "dot"],
        vec!["aa", "bbbb", "ab"],
        vec!["cat", "cot", "dog", "dot", "cog", "cut", "hot", "hat", "dig", "do"],
        vec!["", "a", "aa", "aaa", "aaaa", "b", "bb"],
    ];
    for words in &corpora {
        let index = index_of(words);
        let n = index.len();
        for target in 0..n {
            for first in 0..n {
                let (guesses, sizes) = play(&index, target, first);
                assert_eq!(*guesses.last().unwrap(), target);
                assert!(guesses.len() <= 2 * n - 1);
                // Where every answer after the first drops a candidate, no
                // more than n guesses miss.
                let always_drops = (2..sizes.len()).all(|k| sizes[k] < sizes[k - 1]);
                if always_drops {
                    assert!(guesses.len() - 1 <= n);
                }
            }
        }
    }
}

#[test]
fn a_game_can_take_more_rounds_than_there_are_words() {
    // Hidden "ab", first guess "aa": the answers to "bbbb" and to "aa" again
    // both leave "aa" and "ab", and only the fourth guess is "ab".
    let index = index_of(&["aa", "bbbb", "ab"]);
    let (guesses, sizes) = play(&index, 2, 0);
    assert_eq!(guesses, vec![0, 1, 0, 2]);
    assert_eq!(sizes, vec![3, 3, 2, 2]);
}
