use wordle_rs::dicts::{dict_words, mkdict, Dict};
use wordle_rs::wordl::Game;

fn word_vec(words: &[&str]) -> Vec<String> {
    words.iter().map(|w| w.to_string()).collect()
}

#[test]
fn test_lens() {
    let dict = Dict::new(word_vec(&["CAT", "SLUMP", "HOUSE", "DOG", "PLUMP", "AB"]));
    let fives = dict.word_lens(5);
    assert_eq!(fives.len(), 3);
    assert!(fives.into_iter().all(|w| w.len() == 5))
}

#[test]
fn test_rand() {
    let dict = Dict::new(word_vec(&["CAT", "SLUMP", "HOUSE", "DOG", "PLUMP"]));
    let w = dict.rand_of_len(5);
    println!("W: {:?}", w);
    assert!(w.len() == 5)
}

#[test]
fn rand_of_len_returns_the_only_candidate() {
    let dict = Dict::new(word_vec(&["CAT", "SLUMP", "DOG"]));
    assert_eq!(dict.rand_of_len(5), "SLUMP".to_string());
}

#[test]
fn has_finds_exact_words_only() {
    let dict = Dict::new(word_vec(&["CAT", "SLUMP"]));
    assert!(dict.has("CAT"));
    assert!(dict.has("SLUMP"));
    assert!(!dict.has("cat"));
    assert!(!dict.has("SLUM"));
    assert!(!dict.has(""));
}

#[test]
fn dict_words_trims_skips_and_uppercases() {
    let lines = word_vec(&["  cat ", "", "   ", "Slump", "dog"]);
    let words = dict_words(&lines);
    assert_eq!(words, word_vec(&["CAT", "SLUMP", "DOG"]));
}

#[test]
fn mkdict_filters_the_raw_list() {
    let lines = word_vec(&[
        "dog", "dogs", "box", "boxes", "berries", "Paris", "ABC", "rat-x", "café", "cat",
    ]);
    let words = mkdict(&lines);
    assert_eq!(words, word_vec(&["dog", "box", "cat"]));
}

#[test]
fn mkdict_window_forgets_old_words() {
    // The plural filter only remembers the last twenty kept words, so a
    // plural that comes more than twenty words after its singular stays.
    let mut raw: Vec<String> = vec!["dog".to_string()];
    for i in 0..20 {
        let mut w = String::from("filler");
        w.push((b'a' + i as u8) as char);
        raw.push(w);
    }
    raw.push("dogs".to_string());
    let words = mkdict(&raw);
    assert_eq!(words.len(), 22);
    assert_eq!(words[21], "dogs".to_string());
}

#[test]
fn with_len_draws_a_word_of_that_length() {
    let dict = Dict::new(word_vec(&["CAT", "SLUMP", "DOG"]));
    let game = Game::with_len(5, dict);
    assert_eq!(game.len(), 5);
    assert_eq!(game.guesses_made(), 0);
}
