use std::collections::hash_map::DefaultHasher;
use std::hash::{Hash, Hasher};

use wordle_rs::position::{floorcast, Position};
use wordle_rs::screen::{Screen, BLANK};

fn hash_of<T: Hash>(t: &T) -> u64 {
    let mut s = DefaultHasher::new();
    t.hash(&mut s);
    s.finish()
}

#[test]
fn test_position() {
    let small = Position::new(1, 2);
    let big = Position::new(3, 6);
    assert!(small.add(big).sub(small).add(small) < big.add(big));

    let s: u16 = 2 << 14;
    let t: i32 = s as i32;
    let u: u16 = t as u16;
    assert_eq!(s, u);

    let neg = Position::new(-2 << 12, -2 << 6);

    assert!(hash_of(&neg) == hash_of(&neg));
    assert!(hash_of(&neg) != hash_of(&big));
    assert!(hash_of(&small) != hash_of(&big));
    assert!(hash_of(&small) == hash_of(&small));
}

#[test]
fn test_buffer() {
    let mut screen = Screen::default();
    screen.write(&Position::new(0, 1), 'h');
    screen.write(&Position::new(1, 2), 'i');

    assert_eq!(screen.read(&Position::new(0, 1)), ' ');
    assert_eq!(screen.read(&Position::new(1, 2)), ' ');

    let out = screen.flush();
    assert_eq!(out.len(), 2);

    assert_eq!(screen.read(&Position::new(0, 1)), 'h');
    assert_eq!(screen.read(&Position::new(1, 2)), 'i');
}

#[test]
fn add_after_sub_restores_the_point() {
    let a = Position::new(7, -3);
    let b = Position::new(-2, 11);
    assert_eq!(a.sub(b).add(b), a);
}

#[test]
fn clamp_stays_inside_and_fixes_interior_points() {
    let min = Position::new(0, 0);
    let max = Position::new(4, 0);
    let clamped = (&Position::new(-1, 0)).clamp(min, max);
    assert_eq!(clamped, Position::new(0, 0));
    let inside = Position::new(3, 0);
    assert_eq!((&inside).clamp(min, max), inside);
    let over = (&Position::new(9, -2)).clamp(min, max);
    assert_eq!(over, Position::new(4, 0));
}

#[test]
fn floorcast_floors_negatives_to_zero() {
    assert_eq!(floorcast(-17), 0);
    assert_eq!(floorcast(0), 0);
    assert_eq!(floorcast(42), 42);
    let v = Position::new(-5, 9).to_visible();
    assert_eq!(v, (0, 9));
    assert_eq!(Position::from_visible((3, 4)), Position::new(3, 4));
}

#[test]
fn rewriting_a_committed_character_yields_no_diff() {
    let mut screen = Screen::default();
    screen.write(&Position::new(2, 3), 'x');
    assert_eq!(screen.flush().len(), 1);
    screen.write(&Position::new(2, 3), 'x');
    let second = screen.flush();
    assert!(second.is_empty());
    assert_eq!(screen.read(&Position::new(2, 3)), 'x');
}

#[test]
fn flush_reports_exactly_the_changed_cells() {
    let mut screen = Screen::default();
    screen.write(&Position::new(0, 0), 'a');
    screen.write(&Position::new(1, 0), 'b');
    screen.flush();
    // One cell keeps its value, one changes, one is new.
    screen.write(&Position::new(0, 0), 'a');
    screen.write(&Position::new(1, 0), 'c');
    screen.write(&Position::new(2, 0), 'd');
    let out = screen.flush();
    assert_eq!(out.len(), 2);
    assert!(out.contains(&(Position::new(1, 0), 'c')));
    assert!(out.contains(&(Position::new(2, 0), 'd')));
    // A second flush with no intervening writes yields nothing.
    assert!(screen.flush().is_empty());
}

#[test]
fn out_of_bounds_writes_are_inert() {
    let mut screen = Screen::with_size(Position::new(10, 10));
    screen.write(&Position::new(3, 3), 'k');
    screen.flush();
    screen.write(&Position::new(11, 3), 'z');
    screen.write(&Position::new(-1, 0), 'z');
    let out = screen.flush();
    assert!(out.is_empty());
    assert_eq!(screen.read(&Position::new(3, 3)), 'k');
    assert_eq!(screen.read(&Position::new(11, 3)), BLANK);
    assert_eq!(screen.read(&Position::new(-1, 0)), BLANK);
}

#[test]
fn clear_stages_blanks_over_committed_cells() {
    let mut screen = Screen::default();
    screen.write(&Position::new(0, 0), 'a');
    screen.write(&Position::new(5, 5), 'b');
    screen.flush();
    screen.clear();
    let out = screen.flush();
    assert_eq!(out.len(), 2);
    assert_eq!(screen.read(&Position::new(0, 0)), BLANK);
    assert_eq!(screen.read(&Position::new(5, 5)), BLANK);
}

#[test]
fn writes_stages_lines_and_reads_collects_them() {
    let mut screen = Screen::default();
    screen.writes(&Position::new(0, 0), "hi\nyo");
    screen.flush();
    assert_eq!(screen.read(&Position::new(0, 0)), 'h');
    assert_eq!(screen.read(&Position::new(1, 0)), 'i');
    assert_eq!(screen.read(&Position::new(0, 1)), 'y');
    assert_eq!(screen.read(&Position::new(1, 1)), 'o');
    let text = screen.reads(&Position::new(0, 0), &Position::new(1, 1));
    assert_eq!(text, "hiyo".to_string());
}

#[test]
fn reads_skips_cells_never_committed() {
    let mut screen = Screen::default();
    screen.writes(&Position::new(0, 0), "ab");
    screen.flush();
    let text = screen.reads(&Position::new(0, 0), &Position::new(7, 0));
    assert_eq!(text, "ab".to_string());
}

#[test]
fn screen_clamp_uses_the_extent() {
    let screen = Screen::with_size(Position::new(10, 20));
    assert_eq!(screen.clamp(&Position::new(-3, 5)), Position::new(0, 5));
    assert_eq!(screen.clamp(&Position::new(15, 25)), Position::new(10, 20));
    assert_eq!(screen.clamp(&Position::new(4, 4)), Position::new(4, 4));
}

#[test]
fn write_returns_the_previously_staged_character() {
    let mut screen = Screen::default();
    assert_eq!(screen.write(&Position::new(1, 1), 'a'), BLANK);
    assert_eq!(screen.write(&Position::new(1, 1), 'b'), 'a');
    screen.flush();
    // After a flush the staging buffer is empty again.
    assert_eq!(screen.write(&Position::new(1, 1), 'c'), BLANK);
}

#[test]
fn fresh_screen_flushes_to_nothing() {
    let mut screen = Screen::with_size(Position::new(0, 0));
    assert!(screen.flush().is_empty());
    assert_eq!(screen.reads(&Position::new(0, 0), &Position::new(5, 5)), "".to_string());
    // Only the origin is in bounds at extent (0, 0).
    screen.write(&Position::new(0, 0), 'a');
    screen.write(&Position::new(1, 0), 'b');
    let out = screen.flush();
    assert_eq!(out, vec![(Position::new(0, 0), 'a')]);
}

#[test]
fn huge_extents_are_accepted() {
    let mut screen = Screen::with_size(Position::new(i32::MAX, i32::MAX));
    screen.write(&Position::new(i32::MAX, i32::MAX), 'z');
    let out = screen.flush();
    assert_eq!(out.len(), 1);
    assert_eq!(screen.read(&Position::new(i32::MAX, i32::MAX)), 'z');
}
