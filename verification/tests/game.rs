use wordle_rs::dicts::Dict;
use wordle_rs::session::{PlayOutcome, PlaySession};
use wordle_rs::wordl::{compare, join, normalize, Game, GuessError, CLOSE, MATCH, MISS};

fn word_vec(words: &[&str]) -> Vec<String> {
    words.iter().map(|w| w.to_string()).collect()
}

fn game_dict() -> Dict {
    Dict::new(word_vec(&[
        "TIGHT", "SLINK", "TRUNK", "CHUMP", "PLUMP", "SLUMP", "MAPLE", "ANANA", "PUMAS", "AQUAS",
        "CACAO",
    ]))
}

#[test]
fn test_compare() {
    {
        let res = compare("slump", "plump");
        println!("{}", join(&res));
        assert_eq!(res, vec![MISS, MATCH, MATCH, MATCH, MATCH])
    }
    {
        let res = compare("slump", "maple");
        println!("{}", join(&res));
        assert_eq!(res, vec![CLOSE, MISS, CLOSE, CLOSE, MISS])
    }
    {
        let res = compare("cacao", "anana");
        println!("{}", join(&res));
        assert_eq!(res, vec![CLOSE, MISS, CLOSE, MISS, MISS])
    }
    {
        let res = compare("aquas", "pumas");
        println!("{}", join(&res));
        assert_eq!(res, vec![MISS, CLOSE, MISS, MATCH, MATCH])
    }
}

#[test]
fn test_game() {
    let actual = "slump";
    let guesses = vec![
        ("tight", vec![MISS, MISS, MISS, MISS, MISS]),
        ("slink", vec![MATCH, MATCH, MISS, MISS, MISS]),
        ("trunk", vec![MISS, MISS, MATCH, MISS, MISS]),
        ("chump", vec![MISS, MISS, MATCH, MATCH, MATCH]),
        ("plump", vec![MISS, MATCH, MATCH, MATCH, MATCH]),
        ("slump", vec![MATCH, MATCH, MATCH, MATCH, MATCH]),
    ];

    println!("Playing");
    let mut game = Game::new(actual, game_dict());
    for (guess, expected) in guesses {
        let cmp = game.guess(guess);
        println!("{:?}\n\t{:?}\n\t{:?}", guess, cmp, expected);
        assert_eq!(cmp.unwrap(), expected);
    }
    println!("Done");
}

#[test]
fn test_play() {
    let lines = vec!["tight", "slink", "trunk", "chump", "plump", "slump"];
    let expected = vec![
        vec![MISS, MISS, MISS, MISS, MISS],
        vec![MATCH, MATCH, MISS, MISS, MISS],
        vec![MISS, MISS, MATCH, MISS, MISS],
        vec![MISS, MISS, MATCH, MATCH, MATCH],
        vec![MISS, MATCH, MATCH, MATCH, MATCH],
        vec![MATCH, MATCH, MATCH, MATCH, MATCH],
    ];

    println!("Playing");
    let mut session = PlaySession::new("slump", game_dict());
    for (line, want) in lines.iter().zip(expected.iter()) {
        match session.play_step(line) {
            PlayOutcome::Scored { verdicts, .. } => assert_eq!(&verdicts, want),
            _ => panic!("line {:?} was not scored", line),
        }
    }
    println!("Done");
}

#[test]
fn play_session_finishes_on_sixth_guess() {
    let mut session = PlaySession::new("slump", game_dict());
    for (i, line) in ["tight", "slink", "trunk", "chump", "plump", "slump"]
        .iter()
        .enumerate()
    {
        match session.play_step(line) {
            PlayOutcome::Scored { finished, .. } => assert_eq!(finished, i == 5),
            _ => panic!("line {:?} was not scored", line),
        }
    }
    assert_eq!(session.guesses, 6);
}

#[test]
fn play_session_gives_up_after_ten_rejections() {
    let mut session = PlaySession::new("slump", game_dict());
    for i in 1..=10 {
        match session.play_step("toolongword") {
            PlayOutcome::WrongLength { expected, give_up } => {
                assert_eq!(expected, 5);
                assert_eq!(give_up, i == 10);
            }
            _ => panic!("expected a length rejection"),
        }
    }
}

#[test]
fn game_session_ends_after_winning_guess() {
    let mut game = Game::new("slump", game_dict());
    for guess in ["tight", "slink", "trunk", "chump", "plump"] {
        game.guess(guess).unwrap();
    }
    assert!(!game.is_won());
    let cmp = game.guess("slump").unwrap();
    assert_eq!(cmp, vec![MATCH, MATCH, MATCH, MATCH, MATCH]);
    assert!(game.is_won());
    assert_eq!(game.guesses_remaining(), 0);
    assert_eq!(game.guesses_made(), 6);
    match game.guess("plump") {
        Err(GuessError::NoGuessesRemaining { won }) => assert!(won),
        other => panic!("expected no guesses remaining, got {:?}", other),
    }
    assert_eq!(game.guesses_made(), 6);
}

#[test]
fn game_rejects_wrong_length_guess() {
    let mut game = Game::new("slump", game_dict());
    match game.guess("cat") {
        Err(GuessError::WrongLength { expected }) => assert_eq!(expected, 5),
        other => panic!("expected a length rejection, got {:?}", other),
    }
    assert_eq!(game.guesses_made(), 0);
}

#[test]
fn game_rejects_guess_outside_word_list() {
    let mut game = Game::new("slump", game_dict());
    match game.guess("zzzzz") {
        Err(GuessError::NotInWordList) => {}
        other => panic!("expected a word-list rejection, got {:?}", other),
    }
    assert_eq!(game.guesses_made(), 0);
}

#[test]
fn game_loss_reports_not_won() {
    let mut game = Game::new("slump", game_dict());
    for _ in 0..6 {
        game.guess("tight").unwrap();
    }
    assert!(!game.is_won());
    match game.guess("slump") {
        Err(GuessError::NoGuessesRemaining { won }) => assert!(!won),
        other => panic!("expected no guesses remaining, got {:?}", other),
    }
}

#[test]
fn normalize_uppercases() {
    assert_eq!(normalize("slump"), "SLUMP".to_string());
    assert_eq!(normalize("Slump"), "SLUMP".to_string());
    assert_eq!(normalize(""), "".to_string());
}

#[test]
fn compare_word_with_itself_is_all_match() {
    let res = compare("aquas", "aquas");
    assert_eq!(res, vec![MATCH, MATCH, MATCH, MATCH, MATCH]);
}

#[test]
fn join_concatenates_characters() {
    let res = vec!['a', 'b', 'c'];
    assert_eq!(join(&res), "abc".to_string());
    assert_eq!(join(&Vec::new()), "".to_string());
}

#[test]
fn empty_guess_is_rejected_against_the_word_list() {
    let mut game = Game::new("slump", game_dict());
    match game.guess("") {
        Err(GuessError::WrongLength { expected }) => assert_eq!(expected, 5),
        other => panic!("expected a length rejection, got {:?}", other),
    }
}
