use eel::buffer::TextBuffer;
use eel::error::BufferError;
use eel::position::Position;
use eel::state::{parse_buffer_state, set_buffer_state};

fn buffer_with_state(state: &str) -> TextBuffer {
    let mut b = TextBuffer::new();
    set_buffer_state(&mut b, state).expect("set_buffer_state");
    let (content, pos) = parse_buffer_state(state);
    assert_eq!(b.get_content(), content);
    assert_eq!(b.get_cursor(), pos);
    b
}

#[test]
fn cursor_read_and_set() {
    let b = buffer_with_state("|");
    assert_eq!(b.get_cursor(), Position::new(0, 0));

    let mut b = buffer_with_state("|First line\nSecond line");
    assert_eq!(b.get_cursor(), Position::new(0, 0));

    b.set_cursor(&Position::new(1, 4)).expect("set_cursor");
    assert_eq!(b.get_cursor(), Position::new(1, 4));

    b.set_cursor(&Position::new(0, 0)).expect("set_cursor");
    assert_eq!(b.get_cursor(), Position::new(0, 0));

    b.set_cursor(&Position::new(1, 11)).expect("set_cursor");
    assert_eq!(b.get_cursor(), Position::new(1, 11));

    let e = b.set_cursor(&Position::new(2, 0)).unwrap_err();
    assert_eq!(e, BufferError::RowOutOfBounds { row: 2, limit: 1 });
    let e = b.set_cursor(&Position::new(1, 12)).unwrap_err();
    assert_eq!(e, BufferError::ColOutOfBounds { col: 12, limit: 11 });
    let e = b.set_cursor(&Position::new(0, 12)).unwrap_err();
    assert_eq!(e, BufferError::ColOutOfBounds { col: 12, limit: 10 });
}

#[test]
fn cursor_on_empty_line_reads_zero() {
    let mut b = buffer_with_state("ab|\n\ncd");
    b.set_cursor(&Position::new(1, 0)).expect("set_cursor");
    assert_eq!(b.get_line(1).expect("get_line"), "");
    assert_eq!(b.get_cursor().col, 0);
}

#[test]
fn cursor_append() {
    let mut b = buffer_with_state("First line\nSecond line\nThird| line\n");

    b.append_at_cursor("test ").expect("append_at_cursor");
    assert_eq!(b.get_content(), "First line\nSecond line\nThird test line\n");

    b.set_cursor(&Position::new(2, 6)).expect("set_cursor");
    b.prepend_at_cursor("(3rd) ").expect("prepend_at_cursor");
    assert_eq!(b.get_content(), "First line\nSecond line\nThird (3rd) test line\n");
}

#[test]
fn cursor_type_text() {
    let mut b = buffer_with_state("First line\nSecond| line\nThird line!");

    b.type_text("test ").expect("type_text");
    let (content, pos) = parse_buffer_state("First line\nSecond test| line\nThird line!");
    assert_eq!(b.get_content(), content);
    assert_eq!(b.get_cursor(), pos);

    b.type_text("test\n").expect("type_text");
    let (content, pos) = parse_buffer_state("First line\nSecond test test\n|line\nThird line!");
    assert_eq!(b.get_content(), content);
    assert_eq!(b.get_cursor(), pos);
}

#[test]
fn cursor_type_text_empty_buffer() {
    let mut b = buffer_with_state("|");
    b.type_text("test").expect("type_text");
    let (content, pos) = parse_buffer_state("tes|t");
    assert_eq!(b.get_content(), content);
    assert_eq!(b.get_cursor(), pos);
}

#[test]
fn cursor_type_text_nothing() {
    let mut b = buffer_with_state("ab|c");
    b.type_text("").expect("type_text");
    assert_eq!(b.get_content(), "abc");
    assert_eq!(b.get_cursor(), Position::new(0, 2));
}

#[test]
fn cursor_survives_shrinking_edit() {
    // An edit that swallows the cursor's position clamps it back inside.
    let mut b = buffer_with_state("abcdef|gh");
    b.set_content("xy").expect("set_content");
    let c = b.get_cursor();
    assert_eq!(c, Position::new(0, 2));
}
