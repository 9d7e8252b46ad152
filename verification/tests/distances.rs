use hotter_colder::edit::distance_between;
use hotter_colder::index::distance_row;
use hotter_colder::index::make_distance_cache;
use hotter_colder::index::DistanceIndex;

fn corpus(words: &[&str]) -> Vec<String> {
    words.iter().map(|w| w.to_string()).collect()
}

fn small_index() -> DistanceIndex {
    make_distance_cache(corpus(&["cat", "cot", "dog", "dot"]))
}

#[test]
fn distance_counts_single_edits() {
    assert_eq!(distance_between("abc", "ab"), 1);
    assert_eq!(distance_between("kitten", "sitting"), 3);
    assert_eq!(distance_between("cat", "dog"), 3);
    assert_eq!(distance_between("cat", "cot"), 1);
    assert_eq!(distance_between("dot", "cat"), 2);
    assert_eq!(distance_between("flaw", "lawn"), 2);
}

#[test]
fn distance_to_and_from_the_empty_word_is_the_length() {
    assert_eq!(distance_between("", ""), 0);
    assert_eq!(distance_between("", "word"), 4);
    assert_eq!(distance_between("word", ""), 4);
}

#[test]
fn distance_is_measured_in_characters() {
    // "é" is one character, though two bytes in UTF-8: one substitution
    // turns it into "e".
    assert_eq!(distance_between("é", "e"), 1);
    assert_eq!(distance_between("e", "é"), 1);
    assert_eq!(distance_between("é", "é"), 0);
    assert_eq!(distance_between("é", ""), 1);
    assert_eq!(distance_between("naïve", "naive"), 1);
    assert_eq!(distance_between("日本語", "日本"), 1);
    assert_eq!(distance_between("日本語", "語本日"), 2);
    assert_eq!(distance_between("🥵🥶", "🥶🥵"), 2);
    assert_eq!(distance_between("über", "uber"), 1);
    assert_eq!(distance_between("ab", "äb"), 1);
}

#[test]
fn ascii_and_other_words_are_measured_alike() {
    // The same pattern of equal and different characters gives the same
    // distance, whether the characters are ASCII or not.
    let plain = ["kitten", "sitting", "", "a", "flaw", "lawn"];
    let accented = ["kíttén", "síttíng", "", "á", "fláw", "láwn"];
    for i in 0..plain.len() {
        for j in 0..plain.len() {
            assert_eq!(
                distance_between(plain[i], plain[j]),
                distance_between(accented[i], accented[j])
            );
        }
    }
}

#[test]
fn index_of_accented_words_counts_characters() {
    let index = make_distance_cache(corpus(&["é", "e"]));
    assert_eq!(index.distance(0, 1), 1);
    assert_eq!(index.distance(1, 0), 1);
    assert_eq!(index.lookup("é", "e"), Some(1));
    assert_eq!(index.lookup("e", "é"), Some(1));
}

#[test]
fn distance_is_symmetric_over_the_corpus() {
    let index = small_index();
    for i in 0..index.len() {
        for j in 0..index.len() {
            assert_eq!(index.distance(i, j), index.distance(j, i));
        }
    }
}

#[test]
fn distance_of_a_word_to_itself_is_zero() {
    let index = small_index();
    for i in 0..index.len() {
        assert_eq!(index.distance(i, i), 0);
    }
}

#[test]
fn distinct_words_are_at_positive_distance() {
    let index = small_index();
    for i in 0..index.len() {
        for j in 0..index.len() {
            if i != j {
                assert!(index.distance(i, j) > 0);
            }
        }
    }
}

#[test]
fn index_holds_every_ordered_pair() {
    let words = ["cat", "cot", "dog", "dot"];
    let index = small_index();
    assert_eq!(index.len(), 4);
    let expected: [[u32; 4]; 4] = [[0, 1, 3, 2], [1, 0, 2, 1], [3, 2, 0, 1], [2, 1, 1, 0]];
    for i in 0..4 {
        assert_eq!(index.word(i), words[i]);
        for j in 0..4 {
            assert_eq!(index.distance(i, j), expected[i][j]);
            assert_eq!(index.lookup(words[i], words[j]), Some(expected[i][j]));
        }
    }
}

#[test]
fn distance_row_follows_the_corpus_order() {
    let words = corpus(&["cat", "cot", "dog", "dot"]);
    assert_eq!(distance_row("dog", &words), vec![3, 2, 0, 1]);
    assert_eq!(distance_row("cat", &Vec::new()), Vec::<u32>::new());
}

#[test]
fn lookup_misses_words_outside_the_corpus() {
    let index = small_index();
    assert_eq!(index.lookup("cat", "cow"), None);
    assert_eq!(index.lookup("cow", "cat"), None);
    assert_eq!(index.position("dog"), Some(2));
    assert_eq!(index.position("cow"), None);
}

#[test]
fn position_is_the_first_of_equal_words() {
    let index = make_distance_cache(corpus(&["dot", "cat", "dot"]));
    assert_eq!(index.position("dot"), Some(0));
    assert_eq!(index.distance(0, 2), 0);
}

#[test]
fn empty_corpus_gives_an_empty_index() {
    let index = make_distance_cache(Vec::new());
    assert!(index.is_empty());
    assert_eq!(index.len(), 0);
    assert_eq!(index.lookup("cat", "cat"), None);
}

#[test]
fn large_corpus_is_indexed_in_order() {
    let words: Vec<String> = (0..300).map(|i| format!("w{:03}", i)).collect();
    let index = make_distance_cache(words.clone());
    assert_eq!(index.len(), 300);
    for i in [0usize, 1, 57, 123, 299] {
        assert_eq!(index.word(i), words[i]);
        for j in [0usize, 2, 99, 298] {
            assert_eq!(index.distance(i, j), distance_between(&words[i], &words[j]));
        }
    }
    assert_eq!(index.distance(0, 299), 3);
    assert_eq!(index.distance(10, 11), 1);
}
