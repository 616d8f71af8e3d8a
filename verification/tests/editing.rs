// Cursor edits on linear text.

use textgrid::edit::{delete_char, insert_char, insert_text};

fn chars(s: &str) -> Vec<char> {
    s.chars().collect()
}

fn s(v: &Vec<char>) -> String {
    v.iter().collect()
}

#[test]
fn insert_lands_inside_the_line() {
    let (t, row, col) = insert_char(&chars("abc"), 0, 1, 'X');
    assert_eq!(s(&t), "aXbc");
    assert_eq!((row, col), (0, 2));
}

#[test]
fn insert_line_break_splits_the_line() {
    let (t, row, col) = insert_char(&chars("abcd"), 0, 2, '\n');
    assert_eq!(s(&t), "ab\ncd");
    assert_eq!((row, col), (1, 0));
}

#[test]
fn insert_beyond_the_text_grows_it() {
    let (t, row, col) = insert_char(&chars(""), 1, 3, 'X');
    assert_eq!(s(&t), "\n   X");
    assert_eq!((row, col), (1, 4));
}

#[test]
fn delete_removes_the_character_before_the_cursor() {
    let (t, col) = delete_char(&chars("abc"), 0, 2);
    assert_eq!(s(&t), "ac");
    assert_eq!(col, 1);
}

#[test]
fn delete_at_line_start_changes_nothing() {
    let (t, col) = delete_char(&chars("abc"), 0, 0);
    assert_eq!(s(&t), "abc");
    assert_eq!(col, 0);
}

#[test]
fn delete_past_the_line_end_only_moves_the_cursor() {
    let (t, col) = delete_char(&chars("ab"), 0, 5);
    assert_eq!(s(&t), "ab");
    assert_eq!(col, 4);
}

#[test]
fn delete_below_the_text_changes_nothing() {
    let (t, col) = delete_char(&chars("ab"), 3, 2);
    assert_eq!(s(&t), "ab");
    assert_eq!(col, 2);
}

#[test]
fn paste_one_line_lands_inside_the_line() {
    let (t, row, col) = insert_text(&chars("abcd"), 0, 2, &chars("XY"));
    assert_eq!(s(&t), "abXYcd");
    assert_eq!((row, col), (0, 4));
}

#[test]
fn paste_many_lines_splits_the_line() {
    let (t, row, col) = insert_text(&chars("abcd"), 0, 2, &chars("X\nY\nZ"));
    assert_eq!(s(&t), "abX\nY\nZcd");
    assert_eq!((row, col), (2, 1));
}

#[test]
fn paste_nothing_changes_nothing() {
    let (t, row, col) = insert_text(&chars("abcd"), 0, 2, &chars(""));
    assert_eq!(s(&t), "abcd");
    assert_eq!((row, col), (0, 2));
}

#[test]
fn paste_nothing_beyond_the_text_changes_nothing() {
    // even a cursor far outside the text triggers no padding when the
    // snippet is empty
    let (t, row, col) = insert_text(&chars(""), 2, 3, &chars(""));
    assert_eq!(s(&t), "");
    assert_eq!((row, col), (2, 3));
}
