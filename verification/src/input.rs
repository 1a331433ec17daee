//! Interpreting raw key events.
//!
//! A captured key press, together with the terminal size and cursor
//! position current at capture time, is translated into a command: a
//! relative cursor move, a character write, a line submit, a backward
//! delete, a quit, or nothing. The translation is a pure function; the
//! blocking capture itself lives with the caller.

use vstd::prelude::*;

use crate::position::Position;
use crate::screen::{Screen, BLANK};

verus! {

/// A key, as delivered by the terminal.
#[derive(Clone, Copy, Debug, PartialEq, Eq, Structural)]
pub enum Key {
    Left,
    Right,
    Up,
    Down,
    Enter,
    Backspace,
    Char(char),
    Other,
}

/// A key press with its modifier state.
#[derive(Clone, Copy, Debug, PartialEq, Eq, Structural)]
pub struct KeyPress {
    pub key: Key,
    pub ctrl: bool,
    pub alt: bool,
    pub shift: bool,
}

/// The command a key press was interpreted into.
#[derive(Clone, Copy, Debug, PartialEq, Eq, Structural)]
pub enum Res {
    /// Move the cursor by this delta.
    Move(Position),
    /// Write this character at the cursor.
    Write(char),
    /// Submit the current line.
    Enter,
    /// Delete backward.
    Backspace,
    /// End the session.
    Quit,
    /// No actionable event.
    Nothing,
}

/// The modifier state is exactly Ctrl.
pub open spec fn only_ctrl(e: KeyPress) -> bool {
    e.ctrl && !e.alt && !e.shift
}

/// The modifier state is exactly Alt.
pub open spec fn only_alt(e: KeyPress) -> bool {
    e.alt && !e.ctrl && !e.shift
}

/// What a captured key means, in priority order: Ctrl+arrow jumps the
/// cursor to the corresponding terminal edge, a plain arrow moves one
/// cell, Ctrl+C quits, Enter submits, Backspace deletes, a printable
/// character is written, and anything else is ignored.
pub open spec fn interpret_spec(event: KeyPress, size: Position) -> Res {
    match event.key {
        Key::Left => if only_ctrl(event) {
            Res::Move(Position { row: 0, col: (0 - size.col) as i32 })
        } else {
            Res::Move(Position { row: 0, col: -1 as i32 })
        },
        Key::Right => if only_ctrl(event) {
            Res::Move(Position { row: 0, col: size.col })
        } else {
            Res::Move(Position { row: 0, col: 1 })
        },
        Key::Up => if only_ctrl(event) {
            Res::Move(Position { row: (0 - size.row) as i32, col: 0 })
        } else {
            Res::Move(Position { row: -1 as i32, col: 0 })
        },
        Key::Down => if only_ctrl(event) {
            Res::Move(Position { row: size.row, col: 0 })
        } else {
            Res::Move(Position { row: 1, col: 0 })
        },
        Key::Enter => Res::Enter,
        Key::Backspace => Res::Backspace,
        Key::Char(c) => if only_ctrl(event) && c == 'c' {
            Res::Quit
        } else {
            Res::Write(c)
        },
        Key::Other => Res::Nothing,
    }
}

/// Translates a captured key press into a command. The cursor position
/// is part of the capture snapshot but does not influence the
/// translation.
pub fn key_event_to_res(event: KeyPress, size: Position, cursor: Position) -> (r: Res)
    requires
        0 <= size.col <= u16::MAX as i32,
        0 <= size.row <= u16::MAX as i32,
    ensures
        r == interpret_spec(event, size),
{
    let _ = cursor;
    let jump = event.ctrl && !event.alt && !event.shift;
    match event.key {
        Key::Left => if jump {
            Res::Move(Position::new(0 - size.col, 0))
        } else {
            Res::Move(Position::new(-1, 0))
        },
        Key::Right => if jump {
            Res::Move(Position::new(size.col, 0))
        } else {
            Res::Move(Position::new(1, 0))
        },
        Key::Up => if jump {
            Res::Move(Position::new(0, 0 - size.row))
        } else {
            Res::Move(Position::new(0, -1))
        },
        Key::Down => if jump {
            Res::Move(Position::new(0, size.row))
        } else {
            Res::Move(Position::new(0, 1))
        },
        Key::Enter => Res::Enter,
        Key::Backspace => Res::Backspace,
        Key::Char(c) => if jump && c == 'c' {
            Res::Quit
        } else {
            Res::Write(c)
        },
        Key::Other => Res::Nothing,
    }
}

/// What a key press means to the free-draw editor when it is not an
/// Alt+arrow boundary jump: as `interpret_spec`, except that Enter and
/// Backspace are not commands here.
pub open spec fn edit_interpret_spec(event: KeyPress, size: Position) -> Res {
    match event.key {
        Key::Left | Key::Right | Key::Up | Key::Down => interpret_spec(event, size),
        Key::Char(c) => if only_ctrl(event) && c == 'c' {
            Res::Quit
        } else {
            Res::Write(c)
        },
        Key::Enter | Key::Backspace | Key::Other => Res::Nothing,
    }
}

/// Whether the committed cell in the cursor's row at column `j` differs
/// in blankness from `start`.
pub open spec fn col_diff(s: Screen, cursor: Position, j: int, start: bool) -> bool {
    (s.committed_char(Position { row: cursor.row, col: j as i32 }) == BLANK) != start
}

/// Whether the committed cell in the cursor's column at row `j` differs
/// in blankness from `start`.
pub open spec fn row_diff(s: Screen, cursor: Position, j: int, start: bool) -> bool {
    (s.committed_char(Position { row: j as i32, col: cursor.col }) == BLANK) != start
}

/// Whether the committed cell under the cursor is blank.
pub open spec fn start_blank(s: Screen, cursor: Position) -> bool {
    s.committed_char(cursor) == BLANK
}

/// Translates a key press for the free-draw editor. On top of the plain
/// interpretation, Alt+arrow scans the committed cells from the cursor
/// toward the terminal edge for the nearest cell whose blankness differs
/// from the cell under the cursor, and moves there (or not at all if
/// there is none).
#[verifier::loop_isolation(false)]
pub fn process_event(screen: &Screen, event: KeyPress, size: Position, cursor: Position) -> (r:
    Res)
    requires
        screen.wf(),
        0 <= size.col <= u16::MAX as i32,
        0 <= size.row <= u16::MAX as i32,
        0 <= cursor.col <= u16::MAX as i32,
        0 <= cursor.row <= u16::MAX as i32,
    ensures
        !(only_alt(event) && (event.key == Key::Left || event.key == Key::Right || event.key
            == Key::Up || event.key == Key::Down)) ==> r == edit_interpret_spec(event, size),
        only_alt(event) && event.key == Key::Left ==> (match r {
            Res::Move(d) => d.row == 0 && -cursor.col <= d.col <= 0 && (d.col < 0 ==> col_diff(
                *screen,
                cursor,
                cursor.col + d.col,
                start_blank(*screen, cursor),
            )) && (forall|j: int|
                cursor.col + d.col < j <= cursor.col ==> !col_diff(
                    *screen,
                    cursor,
                    j,
                    start_blank(*screen, cursor),
                )),
            _ => false,
        }),
        only_alt(event) && event.key == Key::Right ==> (match r {
            Res::Move(d) => d.row == 0 && 0 <= d.col && (cursor.col <= size.col ==> d.col
                <= size.col - cursor.col) && (cursor.col > size.col ==> d.col == 0) && (d.col > 0
                ==> col_diff(
                *screen,
                cursor,
                cursor.col + d.col,
                start_blank(*screen, cursor),
            )) && (forall|j: int|
                cursor.col <= j < cursor.col + d.col ==> !col_diff(
                    *screen,
                    cursor,
                    j,
                    start_blank(*screen, cursor),
                )),
            _ => false,
        }),
        only_alt(event) && event.key == Key::Up ==> (match r {
            Res::Move(d) => d.col == 0 && -cursor.row <= d.row <= 0 && (d.row < 0 ==> row_diff(
                *screen,
                cursor,
                cursor.row + d.row,
                start_blank(*screen, cursor),
            )) && (forall|j: int|
                cursor.row + d.row < j <= cursor.row ==> !row_diff(
                    *screen,
                    cursor,
                    j,
                    start_blank(*screen, cursor),
                )),
            _ => false,
        }),
        only_alt(event) && event.key == Key::Down ==> (match r {
            Res::Move(d) => d.col == 0 && 0 <= d.row && (cursor.row <= size.row ==> d.row
                <= size.row - cursor.row) && (cursor.row > size.row ==> d.row == 0) && (d.row > 0
                ==> row_diff(
                *screen,
                cursor,
                cursor.row + d.row,
                start_blank(*screen, cursor),
            )) && (forall|j: int|
                cursor.row <= j < cursor.row + d.row ==> !row_diff(
                    *screen,
                    cursor,
                    j,
                    start_blank(*screen, cursor),
                )),
            _ => false,
        }),
{
    let jump = event.ctrl && !event.alt && !event.shift;
    let boundary = event.alt && !event.ctrl && !event.shift;
    let is_arrow = match event.key {
        Key::Left | Key::Right | Key::Up | Key::Down => true,
        _ => false,
    };
    if boundary && is_arrow {
        let c = cursor.col;
        let r_ = cursor.row;
        let w = size.col;
        let h = size.row;
        let start_is_blank = screen.read(&cursor) == BLANK;
        let ghost sb = start_blank(*screen, cursor);
        match event.key {
            Key::Left => {
                let mut i: i32 = 0;
                while i <= c
                    invariant
                        screen.wf(),
                        0 <= i <= c + 1,
                        c == cursor.col,
                        r_ == cursor.row,
                        0 <= c <= u16::MAX as i32,
                        start_is_blank == sb,
                        forall|j: int| c - i < j <= c ==> !col_diff(*screen, cursor, j, sb),
                    decreases c + 1 - i,
                {
                    if (screen.read(&Position::new(c - i, r_)) == BLANK) != start_is_blank {
                        return Res::Move(Position::new(0 - i, 0));
                    }
                    i = i + 1;
                }
                Res::Move(Position::new(0, 0))
            },
            Key::Right => {
                let mut i: i32 = 0;
                while i <= w - c
                    invariant
                        screen.wf(),
                        0 <= i,
                        i <= w - c + 1 || i == 0,
                        c == cursor.col,
                        r_ == cursor.row,
                        0 <= c <= u16::MAX as i32,
                        0 <= w <= u16::MAX as i32,
                        start_is_blank == sb,
                        forall|j: int| c <= j < c + i ==> !col_diff(*screen, cursor, j, sb),
                    decreases w - c + 1 - i,
                {
                    if (screen.read(&Position::new(c + i, r_)) == BLANK) != start_is_blank {
                        return Res::Move(Position::new(i, 0));
                    }
                    i = i + 1;
                }
                Res::Move(Position::new(0, 0))
            },
            Key::Up => {
                let mut i: i32 = 0;
                while i <= r_
                    invariant
                        screen.wf(),
                        0 <= i <= r_ + 1,
                        c == cursor.col,
                        r_ == cursor.row,
                        0 <= r_ <= u16::MAX as i32,
                        start_is_blank == sb,
                        forall|j: int| r_ - i < j <= r_ ==> !row_diff(*screen, cursor, j, sb),
                    decreases r_ + 1 - i,
                {
                    if (screen.read(&Position::new(c, r_ - i)) == BLANK) != start_is_blank {
                        return Res::Move(Position::new(0, 0 - i));
                    }
                    i = i + 1;
                }
                Res::Move(Position::new(0, 0))
            },
            Key::Down => {
                let mut i: i32 = 0;
                while i <= h - r_
                    invariant
                        screen.wf(),
                        0 <= i,
                        i <= h - r_ + 1 || i == 0,
                        c == cursor.col,
                        r_ == cursor.row,
                        0 <= r_ <= u16::MAX as i32,
                        0 <= h <= u16::MAX as i32,
                        start_is_blank == sb,
                        forall|j: int| r_ <= j < r_ + i ==> !row_diff(*screen, cursor, j, sb),
                    decreases h - r_ + 1 - i,
                {
                    if (screen.read(&Position::new(c, r_ + i)) == BLANK) != start_is_blank {
                        return Res::Move(Position::new(0, i));
                    }
                    i = i + 1;
                }
                Res::Move(Position::new(0, 0))
            },
            _ => Res::Nothing,
        }
    } else {
        match event.key {
            Key::Left => if jump {
                Res::Move(Position::new(0 - size.col, 0))
            } else {
                Res::Move(Position::new(-1, 0))
            },
            Key::Right => if jump {
                Res::Move(Position::new(size.col, 0))
            } else {
                Res::Move(Position::new(1, 0))
            },
            Key::Up => if jump {
                Res::Move(Position::new(0, 0 - size.row))
            } else {
                Res::Move(Position::new(0, -1))
            },
            Key::Down => if jump {
                Res::Move(Position::new(0, size.row))
            } else {
                Res::Move(Position::new(0, 1))
            },
            Key::Char(ch) => if jump && ch == 'c' {
                Res::Quit
            } else {
                Res::Write(ch)
            },
            Key::Enter | Key::Backspace | Key::Other => Res::Nothing,
        }
    }
}

} // verus!
