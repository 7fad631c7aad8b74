use eel::buffer::TextBuffer;
use eel::position::Position;
use eel::state::{parse_buffer_state, set_buffer_state};

#[test]
fn parse_cursor_only() {
    let (content, pos) = parse_buffer_state("|");
    assert_eq!(content, "");
    assert_eq!(pos, Position::new(0, 0));
}

#[test]
fn parse_cursor_mid_line() {
    let (content, pos) = parse_buffer_state("ab|c\nd");
    assert_eq!(content, "abc\nd");
    assert_eq!(pos, Position::new(0, 2));
}

#[test]
fn parse_cursor_on_later_line() {
    let (content, pos) = parse_buffer_state("x\n|y");
    assert_eq!(content, "x\ny");
    assert_eq!(pos, Position::new(1, 0));
}

#[test]
fn parse_preserves_trailing_newline() {
    let (content, pos) = parse_buffer_state("a|\n");
    assert_eq!(content, "a\n");
    assert_eq!(pos, Position::new(0, 1));
    let (content, pos) = parse_buffer_state("First line\nSecond| line\n");
    assert_eq!(content, "First line\nSecond line\n");
    assert_eq!(pos, Position::new(1, 6));
}

#[test]
fn parse_cursor_at_line_end() {
    let (content, pos) = parse_buffer_state("abc|\ndef");
    assert_eq!(content, "abc\ndef");
    assert_eq!(pos, Position::new(0, 3));
}

#[test]
fn state_seeds_buffer() {
    let mut b = TextBuffer::new();
    set_buffer_state(&mut b, "First line\nSe|cond line").expect("set_buffer_state");
    assert_eq!(b.get_content(), "First line\nSecond line");
    assert_eq!(b.get_cursor(), Position::new(1, 2));
}
