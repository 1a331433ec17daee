use wordle_rs::dicts::Dict;
use wordle_rs::input::{key_event_to_res, process_event, Key, KeyPress, Res};
use wordle_rs::position::Position;
use wordle_rs::screen::Screen;
use wordle_rs::session::{error_text, UiSession};
use wordle_rs::text::usize_to_string;
use wordle_rs::wordl::{Game, GuessError, MATCH, MISS};

fn word_vec(words: &[&str]) -> Vec<String> {
    words.iter().map(|w| w.to_string()).collect()
}

fn plain(key: Key) -> KeyPress {
    KeyPress { key, ctrl: false, alt: false, shift: false }
}

fn ctrl(key: Key) -> KeyPress {
    KeyPress { key, ctrl: true, alt: false, shift: false }
}

fn alt(key: Key) -> KeyPress {
    KeyPress { key, ctrl: false, alt: true, shift: false }
}

#[test]
fn arrows_move_one_cell() {
    let size = Position::new(80, 24);
    let cursor = Position::new(0, 0);
    assert_eq!(key_event_to_res(plain(Key::Left), size, cursor), Res::Move(Position::new(-1, 0)));
    assert_eq!(key_event_to_res(plain(Key::Right), size, cursor), Res::Move(Position::new(1, 0)));
    assert_eq!(key_event_to_res(plain(Key::Up), size, cursor), Res::Move(Position::new(0, -1)));
    assert_eq!(key_event_to_res(plain(Key::Down), size, cursor), Res::Move(Position::new(0, 1)));
}

#[test]
fn control_arrows_jump_to_the_edges() {
    let size = Position::new(80, 24);
    let cursor = Position::new(10, 10);
    assert_eq!(key_event_to_res(ctrl(Key::Left), size, cursor), Res::Move(Position::new(-80, 0)));
    assert_eq!(key_event_to_res(ctrl(Key::Right), size, cursor), Res::Move(Position::new(80, 0)));
    assert_eq!(key_event_to_res(ctrl(Key::Up), size, cursor), Res::Move(Position::new(0, -24)));
    assert_eq!(key_event_to_res(ctrl(Key::Down), size, cursor), Res::Move(Position::new(0, 24)));
}

#[test]
fn keys_map_to_their_commands() {
    let size = Position::new(80, 24);
    let cursor = Position::new(0, 0);
    assert_eq!(key_event_to_res(ctrl(Key::Char('c')), size, cursor), Res::Quit);
    assert_eq!(key_event_to_res(plain(Key::Enter), size, cursor), Res::Enter);
    assert_eq!(key_event_to_res(plain(Key::Backspace), size, cursor), Res::Backspace);
    assert_eq!(key_event_to_res(plain(Key::Char('q')), size, cursor), Res::Write('q'));
    assert_eq!(key_event_to_res(plain(Key::Other), size, cursor), Res::Nothing);
}

#[test]
fn editor_ignores_enter_and_backspace() {
    let screen = Screen::default();
    let size = Position::new(80, 24);
    let cursor = Position::new(0, 0);
    assert_eq!(process_event(&screen, plain(Key::Enter), size, cursor), Res::Nothing);
    assert_eq!(process_event(&screen, plain(Key::Backspace), size, cursor), Res::Nothing);
    assert_eq!(process_event(&screen, ctrl(Key::Char('c')), size, cursor), Res::Quit);
    assert_eq!(process_event(&screen, plain(Key::Char('h')), size, cursor), Res::Write('h'));
}

#[test]
fn alt_arrow_jumps_to_the_nearest_boundary() {
    let mut screen = Screen::default();
    screen.writes(&Position::new(0, 0), "ab");
    screen.flush();
    let size = Position::new(80, 24);
    // From a blank cell, Alt+Left runs left to the nearest non-blank cell.
    let r = process_event(&screen, alt(Key::Left), size, Position::new(5, 0));
    assert_eq!(r, Res::Move(Position::new(-4, 0)));
    // With no boundary in the way there is no movement.
    let r = process_event(&screen, alt(Key::Up), size, Position::new(5, 9));
    assert_eq!(r, Res::Move(Position::new(0, 0)));
    // From a non-blank cell, the nearest blank cell to the right is next door.
    let r = process_event(&screen, alt(Key::Right), size, Position::new(1, 0));
    assert_eq!(r, Res::Move(Position::new(1, 0)));
}

fn ui_session() -> UiSession {
    let dict = Dict::new(word_vec(&["TIGHT", "SLINK", "TRUNK", "CHUMP", "PLUMP", "SLUMP"]));
    let game = Game::new("slump", dict);
    UiSession::ui_new(game, Position::new(80, 24))
}

#[test]
fn left_arrow_clamped_to_the_row_start_stays_put() {
    // A left arrow at the origin asks for a one-cell move left...
    let size = Position::new(80, 24);
    let cursor = Position::new(0, 0);
    let tentative = key_event_to_res(plain(Key::Left), size, cursor);
    assert_eq!(tentative, Res::Move(Position::new(-1, 0)));
    // ...and the session handler clamps it to no net movement.
    let mut session = ui_session();
    assert_eq!(session.ui_step(cursor, tentative), Res::Move(Position::new(0, 0)));
}

#[test]
fn ui_write_uppercases_and_advances() {
    let mut session = ui_session();
    let r = session.ui_step(Position::new(0, 1), Res::Write('a'));
    assert_eq!(r, Res::Move(Position::new(1, 0)));
    session.screen.flush();
    assert_eq!(session.screen.read(&Position::new(0, 1)), 'A');
}

#[test]
fn ui_backspace_restores_the_placeholder() {
    let mut session = ui_session();
    session.ui_step(Position::new(2, 1), Res::Write('x'));
    let r = session.ui_step(Position::new(2, 1), Res::Backspace);
    assert_eq!(r, Res::Move(Position::new(-1, 0)));
    session.screen.flush();
    assert_eq!(session.screen.read(&Position::new(2, 1)), '_');
}

#[test]
fn ui_enter_scores_the_entered_row() {
    let mut session = ui_session();
    session.screen.flush();
    for (i, ch) in "plump".chars().enumerate() {
        session.ui_step(Position::new(i as i32, 1), Res::Write(ch));
    }
    session.screen.flush();
    let r = session.ui_step(Position::new(5, 1), Res::Enter);
    assert_eq!(r, Res::Move(Position::new(-5, 1)));
    assert_eq!(session.game.guesses_made(), 1);
    session.screen.flush();
    let verdicts: Vec<char> = (0..5)
        .map(|k| session.screen.read(&Position::new(8 + k, 1)))
        .collect();
    assert_eq!(verdicts, vec![MISS, MATCH, MATCH, MATCH, MATCH]);
}

#[test]
fn ui_enter_reports_a_short_entry_in_place() {
    let mut session = ui_session();
    session.screen.flush();
    for (i, ch) in "plu".chars().enumerate() {
        session.ui_step(Position::new(i as i32, 1), Res::Write(ch));
    }
    session.screen.flush();
    let r = session.ui_step(Position::new(3, 1), Res::Enter);
    assert_eq!(r, Res::Nothing);
    assert_eq!(session.game.guesses_made(), 0);
    session.screen.flush();
    let report = session.screen.reads(&Position::new(0, 8), &Position::new(30, 8));
    assert_eq!(report, "Guess \"PLU\" not of length 5!".to_string());
}

#[test]
fn ui_initial_event_moves_off_the_origin() {
    let mut session = ui_session();
    assert_eq!(session.ui_step(Position::new(0, 0), Res::Nothing), Res::Move(Position::new(0, 1)));
    assert_eq!(session.ui_step(Position::new(3, 1), Res::Nothing), Res::Nothing);
    assert_eq!(session.ui_step(Position::new(3, 1), Res::Quit), Res::Quit);
}

#[test]
fn ui_prompt_shows_the_guess_grid() {
    let mut session = ui_session();
    session.screen.flush();
    let header = session.screen.reads(&Position::new(0, 0), &Position::new(27, 0));
    assert_eq!(header, "Guess the word of length 5.".to_string());
    let row = session.screen.reads(&Position::new(0, 3), &Position::new(7, 3));
    assert_eq!(row, "_____".to_string());
}

#[test]
fn error_text_spells_out_each_rejection() {
    assert_eq!(
        error_text(&GuessError::WrongLength { expected: 5 }, "ABCDEF"),
        "Guess \"ABCDEF\" not of length 5!".to_string()
    );
    assert_eq!(
        error_text(&GuessError::NotInWordList, "ZZZZZ"),
        "Guess \"ZZZZZ\" not in word list!".to_string()
    );
    assert_eq!(
        error_text(&GuessError::NoGuessesRemaining { won: true }, ""),
        "No guesses remaining! You won!".to_string()
    );
    assert_eq!(
        error_text(&GuessError::NoGuessesRemaining { won: false }, ""),
        "No guesses remaining! You lost!".to_string()
    );
}

#[test]
fn numbers_render_in_decimal() {
    assert_eq!(usize_to_string(0), "0".to_string());
    assert_eq!(usize_to_string(7), "7".to_string());
    assert_eq!(usize_to_string(105), "105".to_string());
    assert_eq!(usize_to_string(98765), "98765".to_string());
}
