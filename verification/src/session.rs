//! Session logic.
//!
//! The line-oriented session (`PlaySession`) and the interactive
//! canvas-driven session (`UiSession`) are state machines: each step
//! takes what was read (a submitted line, or an interpreted key command)
//! and produces the next state and the action to take. The blocking
//! reads, the raw-mode handling and the physical drawing live with the
//! caller, which runs the loop.

use vstd::prelude::*;
use vstd::string::*;

use crate::dicts::Dict;
use crate::input::Res;
use crate::position::Position;
use crate::screen::{assoc_set, rect_chars, staged_text, Screen};
use crate::text::{decimal_of, push_char, push_decimal};
use crate::wordl::{
    compare_spec, join, lemma_compare_match_positions, normalize, upper_of, Game, GuessError,
    MAX_GUESSES,
};

verus! {

/// One line-oriented game: the normalized target, the word list, how
/// many guesses were scored, and how many invalid submissions came in a
/// row.
pub struct PlaySession {
    /// The normalized target word.
    pub actual: String,
    /// The word list guesses are validated against.
    pub dict: Dict,
    /// How many guesses were scored.
    pub guesses: usize,
    /// How many invalid submissions came in a row.
    pub tries: usize,
}

/// What one submitted line led to.
pub enum PlayOutcome {
    /// The line's length differs from the target's; play continues
    /// unless the session gives up.
    WrongLength { expected: usize, give_up: bool },
    /// The line is not in the word list; play continues unless the
    /// session gives up.
    NotInWordList { give_up: bool },
    /// The line was scored; `finished` reports whether it consumed the
    /// last guess.
    Scored { verdicts: Vec<char>, finished: bool },
}

impl PlaySession {
    /// Counters stay within their bounds.
    pub open spec fn wf(self) -> bool {
        self.guesses <= MAX_GUESSES && self.tries < 10
    }

    /// A fresh session over the given target word (normalized here) and
    /// word list.
    pub fn new(actual_raw: &str, dict: Dict) -> (s: PlaySession)
        ensures
            s.wf(),
            s.actual@ == upper_of(actual_raw@),
            s.dict == dict,
            s.guesses == 0,
            s.tries == 0,
    {
        PlaySession { actual: normalize(actual_raw), dict, guesses: 0, tries: 0 }
    }

    /// The length of the target word, in characters.
    pub fn len(&self) -> (r: usize)
        ensures
            r == self.actual@.len(),
    {
        self.actual.as_str().unicode_len()
    }

    /// Processes one submitted line: it is normalized, then either
    /// rejected (wrong length, or not in the word list — ten rejections
    /// in a row give the session up) or scored against the target. The
    /// session must still have guesses left.
    pub fn play_step(&mut self, line: &str) -> (r: PlayOutcome)
        requires
            old(self).wf(),
            old(self).guesses < MAX_GUESSES,
        ensures
            final(self).wf() || (final(self).tries == 10),
            final(self).actual == old(self).actual,
            final(self).dict == old(self).dict,
            ({
                let g = upper_of(line@);
                match r {
                    PlayOutcome::WrongLength { expected, give_up } => {
                        &&& g.len() != old(self).actual@.len()
                        &&& expected == old(self).actual@.len()
                        &&& final(self).guesses == old(self).guesses
                        &&& final(self).tries == old(self).tries + 1
                        &&& give_up == (final(self).tries >= 10)
                    },
                    PlayOutcome::NotInWordList { give_up } => {
                        &&& g.len() == old(self).actual@.len()
                        &&& !old(self).dict.contains_word(g)
                        &&& final(self).guesses == old(self).guesses
                        &&& final(self).tries == old(self).tries + 1
                        &&& give_up == (final(self).tries >= 10)
                    },
                    PlayOutcome::Scored { verdicts, finished } => {
                        &&& g.len() == old(self).actual@.len()
                        &&& old(self).dict.contains_word(g)
                        &&& verdicts@ == compare_spec(old(self).actual@, g)
                        &&& final(self).guesses == old(self).guesses + 1
                        &&& final(self).tries == 0
                        &&& finished == (final(self).guesses == MAX_GUESSES)
                    },
                }
            }),
    {
        let guess = normalize(line);
        let expected = self.actual.as_str().unicode_len();
        if guess.as_str().unicode_len() != expected {
            self.tries = self.tries + 1;
            return PlayOutcome::WrongLength { expected, give_up: self.tries >= 10 };
        }
        if !self.dict.has(guess.as_str()) {
            self.tries = self.tries + 1;
            return PlayOutcome::NotInWordList { give_up: self.tries >= 10 };
        }
        let verdicts = crate::wordl::compare(self.actual.as_str(), guess.as_str());
        self.guesses = self.guesses + 1;
        self.tries = 0;
        PlayOutcome::Scored { verdicts, finished: self.guesses == MAX_GUESSES }
    }
}

/// What the in-place error report for a rejected guess says.
pub open spec fn error_text_spec(e: GuessError, guess: Seq<char>) -> Seq<char> {
    match e {
        GuessError::NoGuessesRemaining { won } => if won {
            "No guesses remaining! You won!"@
        } else {
            "No guesses remaining! You lost!"@
        },
        GuessError::WrongLength { expected } => "Guess \""@ + guess + "\" not of length "@
            + decimal_of(expected as int) + "!"@,
        GuessError::NotInWordList => "Guess \""@ + guess + "\" not in word list!"@,
    }
}

/// The in-place error report for a rejected guess.
pub fn error_text(e: &GuessError, guess: &str) -> (r: String)
    ensures
        r@ == error_text_spec(*e, guess@),
{
    match e {
        GuessError::NoGuessesRemaining { won } => {
            if *won {
                String::from_str("No guesses remaining! You won!")
            } else {
                String::from_str("No guesses remaining! You lost!")
            }
        },
        GuessError::WrongLength { expected } => {
            let mut s = String::from_str("Guess \"");
            s.append(guess);
            s.append("\" not of length ");
            push_decimal(&mut s, *expected);
            push_char(&mut s, '!');
            proof {
                assert(("Guess \""@ + guess@ + "\" not of length "@ + decimal_of(
                    *expected as int,
                )).push('!') =~= "Guess \""@ + guess@ + "\" not of length "@ + decimal_of(
                    *expected as int,
                ) + "!"@) by {
                    reveal_strlit("!");
                }
            }
            s
        },
        GuessError::NotInWordList => {
            let mut s = String::from_str("Guess \"");
            s.append(guess);
            s.append("\" not in word list!");
            s
        },
    }
}

/// One row of the guess grid: an underscore per target letter.
pub open spec fn underscore_row(len: int) -> Seq<char> {
    Seq::new(len as nat, |i: int| '_')
}

/// The guess grid: `m` rows of underscores, each on its own line.
pub open spec fn prompt_rows(len: int, m: int) -> Seq<char>
    decreases m,
{
    if m <= 0 {
        Seq::empty()
    } else {
        prompt_rows(len, m - 1) + seq!['\n'] + underscore_row(len)
    }
}

/// The whole initial prompt: the header line, then the guess grid.
pub open spec fn prompt_text(len: int) -> Seq<char> {
    "Guess the word of length "@ + decimal_of(len) + "."@ + prompt_rows(len, MAX_GUESSES as int)
}

/// A decimal rendering has at least one digit, and few of them for a
/// small number.
proof fn lemma_decimal_len(n: int)
    requires
        0 <= n,
    ensures
        decimal_of(n).len() >= 1,
        n < 10 ==> decimal_of(n).len() == 1,
        n < 100 ==> decimal_of(n).len() <= 2,
        n < 1000 ==> decimal_of(n).len() <= 3,
        n < 10000 ==> decimal_of(n).len() <= 4,
        n < 100000 ==> decimal_of(n).len() <= 5,
    decreases n,
{
    if n >= 10 {
        lemma_decimal_len(n / 10);
    }
}

/// The guess grid's size is bounded by its row count and width.
proof fn lemma_prompt_rows_len(len: int, m: int)
    requires
        0 <= len <= 1000,
        0 <= m,
    ensures
        prompt_rows(len, m).len() <= m * 1001,
    decreases m,
{
    if m > 0 {
        lemma_prompt_rows_len(len, m - 1);
    }
}

/// The whole prompt is small.
proof fn lemma_prompt_text_len(len: int)
    requires
        1 <= len <= 1000,
    ensures
        prompt_text(len).len() <= 7000,
{
    reveal_strlit("Guess the word of length ");
    reveal_strlit(".");
    lemma_decimal_len(len);
    lemma_prompt_rows_len(len, MAX_GUESSES as int);
}

/// The prompt as a string.
fn prompt_string(len: usize) -> (r: String)
    ensures
        r@ == prompt_text(len as int),
{
    let mut s = String::from_str("Guess the word of length ");
    push_decimal(&mut s, len);
    s.append(".");
    let mut m: usize = 0;
    while m < MAX_GUESSES
        invariant
            m <= MAX_GUESSES,
            s@ == "Guess the word of length "@ + decimal_of(len as int) + "."@ + prompt_rows(
                len as int,
                m as int,
            ),
        decreases MAX_GUESSES - m,
    {
        let ghost before = s@;
        push_char(&mut s, '\n');
        let mut k: usize = 0;
        while k < len
            invariant
                k <= len,
                s@ == before.push('\n') + Seq::new(k as nat, |i: int| '_'),
            decreases len - k,
        {
            push_char(&mut s, '_');
            proof {
                assert((before.push('\n') + Seq::new(k as nat, |i: int| '_')).push('_') =~= before
                    .push('\n') + Seq::new((k + 1) as nat, |i: int| '_'));
            }
            k = k + 1;
        }
        proof {
            assert(before.push('\n') + underscore_row(len as int) =~= before + seq!['\n']
                + underscore_row(len as int));
            assert(s@ =~= "Guess the word of length "@ + decimal_of(len as int) + "."@
                + prompt_rows(len as int, m + 1));
        }
        m = m + 1;
    }
    s
}

/// The characters that remain once the underscore placeholders are
/// dropped.
pub open spec fn non_markers(s: Seq<char>) -> Seq<char>
    decreases s.len(),
{
    if s.len() == 0 {
        Seq::empty()
    } else {
        non_markers(s.drop_last()) + (if s.last() == '_' {
            Seq::empty()
        } else {
            seq![s.last()]
        })
    }
}

/// Drops the underscore placeholders from a string.
fn filter_markers(s: &str) -> (r: String)
    ensures
        r@ == non_markers(s@),
{
    let n = s.unicode_len();
    let mut r = String::new();
    let mut i: usize = 0;
    while i < n
        invariant
            i <= n,
            n == s@.len(),
            r@ == non_markers(s@.take(i as int)),
        decreases n - i,
    {
        let c = s.get_char(i);
        proof {
            assert(s@.take(i + 1).drop_last() =~= s@.take(i as int));
            assert(s@.take(i + 1).last() == s@[i as int]);
        }
        if c != '_' {
            push_char(&mut r, c);
            proof {
                assert(non_markers(s@.take(i as int)).push(s@[i as int]) =~= non_markers(
                    s@.take(i as int),
                ) + seq![s@[i as int]]);
            }
        }
        i = i + 1;
    }
    proof {
        assert(s@.take(n as int) =~= s@);
    }
    r
}

/// A letter a-z mapped to its uppercase form (thirty-two code points
/// down); every other character unchanged.
pub open spec fn ascii_upper_spec(c: char) -> char {
    if ('a' as u32) <= (c as u32) && (c as u32) <= ('z' as u32) {
        (((c as u32) - 32) as u8) as char
    } else {
        c
    }
}

/// Relies on char::to_ascii_uppercase: the letters a-z map to A-Z
/// (thirty-two code points down), every other character is returned
/// unchanged.
#[verifier::external_body]
fn ascii_upper(c: char) -> (r: char)
    ensures
        r == ascii_upper_spec(c),
{
    c.to_ascii_uppercase()
}

/// One interactive game: the game state, the canvas it is drawn on, and
/// the fixed layout of the guess grid.
pub struct UiSession {
    /// The game being played.
    pub game: Game,
    /// The canvas the session draws on.
    pub screen: Screen,
    /// Where the guess grid starts.
    pub guesses_start: Position,
    /// Where the guess grid ends.
    pub guesses_end: Position,
    /// Where rejection reports are written.
    pub err_start: Position,
}

impl UiSession {
    /// The game and canvas are well-formed and the layout is the fixed
    /// one the constructor sets up below the header line.
    pub open spec fn wf(self) -> bool {
        &&& self.game.wf()
        &&& self.screen.wf()
        &&& 1 <= self.game.actual@.len() <= 1000
        &&& self.guesses_start == (Position { row: 1, col: 0 })
        &&& self.guesses_end == (Position {
            row: (1 + MAX_GUESSES as int) as i32,
            col: (self.game.actual@.len() - 1) as i32,
        })
        &&& self.err_start == (Position { row: (2 + MAX_GUESSES as int) as i32, col: 0 })
    }

    /// A fresh interactive session: a canvas of the terminal's size with
    /// the prompt staged on it, and the guess grid laid out under the
    /// header line.
    pub fn ui_new(game: Game, size: Position) -> (s: UiSession)
        requires
            game.wf(),
            game.guesses@.len() == 0,
            1 <= game.actual@.len() <= 1000,
            0 <= size.col,
            0 <= size.row,
        ensures
            s.wf(),
            s.game == game,
            s.screen.cols == size.col,
            s.screen.rows == size.row,
            s.screen.written_seq().len() == 0,
            s.screen.buffer_seq() == staged_text(
                Seq::empty(),
                0,
                0,
                prompt_text(game.actual@.len() as int),
            ),
    {
        let len = game.len();
        let mut screen = Screen::with_size(size);
        let prompt = prompt_string(len);
        proof {
            lemma_prompt_text_len(len as int);
            assert(screen.buffer_seq() =~= Seq::<(Position, char)>::empty());
        }
        screen.writes(&Position::new(0, 0), prompt.as_str());
        let guesses_start = Position::new(0, 1);
        let guesses_end = guesses_start.add(Position::new(len as i32 - 1, MAX_GUESSES as i32));
        let err_start = Position::new(0, guesses_end.row + 1);
        UiSession { game, screen, guesses_start, guesses_end, err_start }
    }

    /// The view of the guess currently entered in the active row of the
    /// grid: the committed characters of that row with the underscore
    /// placeholders dropped.
    pub open spec fn current_entry(self) -> Seq<char> {
        non_markers(
            rect_chars(
                self.screen,
                self.guesses_start.row + self.game.guesses@.len(),
                self.guesses_start.col as int,
                (self.guesses_end.row - self.guesses_start.col + 1) as nat,
                1,
            ),
        )
    }

    /// Handles one interpreted command. A character is written uppercased
    /// at the cursor and the cursor advances within the active row; Enter
    /// submits the active row's entry to the game, draws its verdicts
    /// beside the row (or the rejection report in the error region) and
    /// moves to the next row or quits; Backspace restores a placeholder
    /// and steps back; a move is clamped to the active row; nothing else
    /// changes anything.
    pub fn ui_step(&mut self, cursor: Position, res: Res) -> (handled: Res)
        requires
            old(self).wf(),
            0 <= cursor.col <= u16::MAX as i32,
            0 <= cursor.row <= u16::MAX as i32,
        ensures
            final(self).wf(),
            final(self).game.actual == old(self).game.actual,
            final(self).game.dict == old(self).game.dict,
            final(self).guesses_start == old(self).guesses_start,
            final(self).guesses_end == old(self).guesses_end,
            final(self).err_start == old(self).err_start,
            final(self).screen.cols == old(self).screen.cols,
            final(self).screen.rows == old(self).screen.rows,
            final(self).screen.written_seq() == old(self).screen.written_seq(),
            ({
                let o = *old(self);
                let f = *final(self);
                let bmin = Position { row: 0, col: (0 - cursor.col) as i32 };
                let bmax = Position { row: 0, col: (o.guesses_end.row - cursor.col) as i32 };
                match res {
                    Res::Nothing => f.game == o.game && f.screen == o.screen && handled == (
                    if cursor.col == 0 && cursor.row == 0 {
                        Res::Move(Position { row: 1, col: 0 })
                    } else {
                        Res::Nothing
                    }),
                    Res::Write(ch) => f.game == o.game && f.screen.buffer_seq() == assoc_set(
                        o.screen.buffer_seq(),
                        cursor,
                        ascii_upper_spec(ch),
                    ) && handled == Res::Move(
                        (Position { row: 0, col: 1 }).clamp_spec(bmin, bmax),
                    ),
                    Res::Backspace => f.game == o.game && f.screen.buffer_seq() == assoc_set(
                        o.screen.buffer_seq(),
                        cursor,
                        '_',
                    ) && handled == Res::Move(Position { row: 0, col: -1 as i32 }),
                    Res::Move(dp) => f.game == o.game && f.screen == o.screen && handled
                        == Res::Move(dp.clamp_spec(bmin, bmax)),
                    Res::Quit => f.game == o.game && f.screen == o.screen && handled == Res::Quit,
                    Res::Enter => ({
                        let up = upper_of(o.current_entry());
                        let grow = o.guesses_start.row + o.game.guesses@.len();
                        let valid = o.game.remaining_spec() >= 1 && up.len()
                            == o.game.actual@.len() && o.game.dict.contains_word(up);
                        if valid {
                            &&& f.game.guesses@.len() == o.game.guesses@.len() + 1
                            &&& f.game.guesses@.drop_last() == o.game.guesses@
                            &&& f.game.guesses@.last().0@ == up
                            &&& f.game.guesses@.last().1@ == compare_spec(o.game.actual@, up)
                            &&& f.screen.buffer_seq() == staged_text(
                                o.screen.buffer_seq(),
                                o.guesses_end.row + 1,
                                grow,
                                compare_spec(o.game.actual@, up),
                            )
                            &&& handled == (if f.game.remaining_spec() > 0 {
                                Res::Move(Position { row: 1, col: (0 - cursor.col) as i32 })
                            } else {
                                Res::Quit
                            })
                        } else {
                            &&& f.game.guesses@ == o.game.guesses@
                            &&& handled == Res::Nothing
                            &&& ({
                                let e = if o.game.remaining_spec() < 1 {
                                    GuessError::NoGuessesRemaining { won: o.game.won_spec() }
                                } else if up.len() != o.game.actual@.len() {
                                    GuessError::WrongLength {
                                        expected: o.game.actual@.len() as usize,
                                    }
                                } else {
                                    GuessError::NotInWordList
                                };
                                let msg = error_text_spec(e, up);
                                if msg.len() <= 100000 {
                                    f.screen.buffer_seq() == staged_text(
                                        o.screen.buffer_seq(),
                                        o.err_start.col as int,
                                        o.err_start.row as int,
                                        msg,
                                    )
                                } else {
                                    f.screen.buffer_seq() == o.screen.buffer_seq()
                                }
                            })
                        }
                    }),
                }
            }),
    {
        let bmin = Position::new(0 - cursor.col, 0);
        let bmax = Position::new(self.guesses_end.row - cursor.col, 0);
        match res {
            Res::Nothing => {
                if cursor.col == 0 && cursor.row == 0 {
                    Res::Move(Position::new(0, 1))
                } else {
                    Res::Nothing
                }
            },
            Res::Write(ch) => {
                let up = ascii_upper(ch);
                self.screen.write(&cursor, up);
                Res::Move((&Position::new(1, 0)).clamp(bmin, bmax))
            },
            Res::Backspace => {
                self.screen.write(&cursor, '_');
                Res::Move(Position::new(-1, 0))
            },
            Res::Move(dp) => Res::Move((&dp).clamp(bmin, bmax)),
            Res::Quit => Res::Quit,
            Res::Enter => {
                let made = self.game.guesses_made();
                proof {
                    assert(made <= MAX_GUESSES);
                }
                let grow_i = self.guesses_start.row + (made as i32);
                let gstart = Position::new(self.guesses_start.col, grow_i);
                let gend = Position::new(self.guesses_end.row, grow_i);
                let raw = self.screen.reads(&gstart, &gend);
                let entry = filter_markers(raw.as_str());
                let outcome = self.game.guess(entry.as_str());
                match outcome {
                    Ok(cmp) => {
                        proof {
                            lemma_compare_match_positions(
                                old(self).game.actual@,
                                upper_of(old(self).current_entry()),
                            );
                        }
                        let joined = join(&cmp);
                        let vpos = Position::new(self.guesses_end.row + 1, grow_i);
                        self.screen.writes(&vpos, joined.as_str());
                        if self.game.guesses_remaining() > 0 {
                            Res::Move(Position::new(0 - cursor.col, 1))
                        } else {
                            Res::Quit
                        }
                    },
                    Err(e) => {
                        let norm = normalize(entry.as_str());
                        let msg = error_text(&e, norm.as_str());
                        if msg.as_str().unicode_len() <= 100000 {
                            let epos = Position::new(self.err_start.col, self.err_start.row);
                            self.screen.writes(&epos, msg.as_str());
                        }
                        Res::Nothing
                    },
                }
            },
        }
    }
}

} // verus!
