use eel::buffer::TextBuffer;
use eel::error::BufferError;
use eel::mark::{Gravity, MarkWriteBuffer};
use eel::position::Position;

fn buffer_with_content(content: &str) -> TextBuffer {
    let mut b = TextBuffer::new();
    b.set_content(content).expect("set_content");
    b
}

#[test]
fn mark_basic() {
    let mut b = buffer_with_content("test\ntest2");
    let id = b.create_mark(&Position::new(0, 1)).expect("create_mark");
    assert_eq!(b.get_mark_position(id).expect("get_mark_position"), Position::new(0, 1));
    b.set_mark_position(id, &Position::new(1, 0)).expect("set_mark_position");
    assert_eq!(b.get_mark_position(id).expect("get_mark_position"), Position::new(1, 0));
}

#[test]
fn mark_set_text() {
    // A right-gravity mark at the insertion point rides to the end of a
    // multi-line insertion.
    let mut b = buffer_with_content("First line");
    let id = b.create_mark(&Position::new(0, 6)).expect("create_mark");
    b.set_text(&Position::new(0, 6), &Position::new(0, 6), "(actually) line\nSecond ").expect(
        "set_text",
    );
    assert_eq!(b.get_mark_position(id).expect("get_mark_position"), Position::new(1, 7));
}

#[test]
fn mark_gravity_right() {
    let mut b = buffer_with_content("First line");
    let id = b.create_mark(&Position::new(0, 5)).expect("create_mark");
    assert_eq!(b.get_mark_position(id).expect("get_mark_position"), Position::new(0, 5));

    b.set_text(&Position::new(0, 1), &Position::new(0, 9), "ir").expect("set_text");
    assert_eq!(b.get_mark_position(id).expect("get_mark_position"), Position::new(0, 3));

    b.set_text(&Position::new(0, 3), &Position::new(0, 3), "...").expect("set_text");
    assert_eq!(b.get_mark_position(id).expect("get_mark_position"), Position::new(0, 6));
}

#[test]
fn mark_gravity_left() {
    let mut b = buffer_with_content("First line");
    let id = b.create_mark(&Position::new(0, 5)).expect("create_mark");
    b.set_mark_gravity(id, Gravity::Left).expect("set_mark_gravity");
    assert_eq!(b.get_mark_position(id).expect("get_mark_position"), Position::new(0, 5));

    b.set_text(&Position::new(0, 1), &Position::new(0, 9), "ir").expect("set_text");
    assert_eq!(b.get_mark_position(id).expect("get_mark_position"), Position::new(0, 1));

    b.set_text(&Position::new(0, 1), &Position::new(0, 3), "...").expect("set_text");
    assert_eq!(b.get_mark_position(id).expect("get_mark_position"), Position::new(0, 1));
}

#[test]
fn mark_before_edit_is_untouched() {
    let mut b = buffer_with_content("abc\ndef");
    let id = b.create_mark(&Position::new(0, 1)).expect("create_mark");
    b.set_text(&Position::new(1, 0), &Position::new(1, 2), "xyz\nw").expect("set_text");
    assert_eq!(b.get_mark_position(id).expect("get_mark_position"), Position::new(0, 1));
}

#[test]
fn mark_after_edit_translates() {
    // A mark past the edit keeps its distance from the edit's end.
    let mut b = buffer_with_content("abcdef");
    let id = b.create_mark(&Position::new(0, 5)).expect("create_mark");
    b.set_text(&Position::new(0, 1), &Position::new(0, 3), "XY\nZ").expect("set_text");
    // New text: "aXY" / "Zdef"; the mark was 2 past the edit end.
    assert_eq!(b.get_content(), "aXY\nZdef");
    assert_eq!(b.get_mark_position(id).expect("get_mark_position"), Position::new(1, 3));
}

#[test]
fn mark_destroy() {
    let mut b = buffer_with_content("abc");
    let id = b.create_mark(&Position::new(0, 1)).expect("create_mark");
    b.destroy_mark(id).expect("destroy_mark");
    let e = b.get_mark_position(id).unwrap_err();
    assert_eq!(e, BufferError::MarkDestroyed);
    // Destroying twice is an error, not a no-op.
    let e = b.destroy_mark(id).unwrap_err();
    assert_eq!(e, BufferError::MarkDestroyed);
    let e = b.set_mark_position(id, &Position::new(0, 0)).unwrap_err();
    assert_eq!(e, BufferError::MarkDestroyed);
    let e = b.set_mark_gravity(id, Gravity::Left).unwrap_err();
    assert_eq!(e, BufferError::MarkDestroyed);
}

#[test]
fn mark_ids_are_not_reused() {
    let mut b = buffer_with_content("abc");
    let first = b.create_mark(&Position::new(0, 0)).expect("create_mark");
    b.destroy_mark(first).expect("destroy_mark");
    let second = b.create_mark(&Position::new(0, 1)).expect("create_mark");
    assert_ne!(first, second);
    assert_eq!(b.get_mark_position(first).unwrap_err(), BufferError::MarkDestroyed);
}

#[test]
fn mark_create_invalid_position() {
    let mut b = buffer_with_content("ab");
    let e = b.create_mark(&Position::new(1, 0)).unwrap_err();
    assert_eq!(e, BufferError::RowOutOfBounds { row: 1, limit: 0 });
    let e = b.create_mark(&Position::new(0, 3)).unwrap_err();
    assert_eq!(e, BufferError::ColOutOfBounds { col: 3, limit: 2 });
}

#[test]
fn mark_set_position_validates() {
    let mut b = buffer_with_content("ab");
    let id = b.create_mark(&Position::new(0, 0)).expect("create_mark");
    let e = b.set_mark_position(id, &Position::new(0, 3)).unwrap_err();
    assert_eq!(e, BufferError::ColOutOfBounds { col: 3, limit: 2 });
    // The refused move left the mark in place.
    assert_eq!(b.get_mark_position(id).expect("get_mark_position"), Position::new(0, 0));
}

fn create_through_capability<B: MarkWriteBuffer>(b: &mut B, pos: &Position) -> eel::mark::MarkId {
    b.create_mark(pos).expect("create_mark through the capability trait")
}

#[test]
fn mark_capability_trait() {
    // The capability traits answer like the buffer's own methods.
    let mut b = buffer_with_content("hello");
    let id = create_through_capability(&mut b, &Position::new(0, 2));
    assert_eq!(b.get_mark_position(id).expect("get_mark_position"), Position::new(0, 2));
}
