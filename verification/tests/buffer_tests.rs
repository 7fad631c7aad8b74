use eel::buffer::TextBuffer;
use eel::error::BufferError;
use eel::position::Position;

fn buffer_with_content(content: &str) -> TextBuffer {
    let mut b = TextBuffer::new();
    assert_eq!(b.get_content(), "");
    b.set_content(content).expect("set_content");
    assert_eq!(b.get_content(), content);
    b
}

#[test]
fn buffer_pos() {
    let b = buffer_with_content("First line\nSecond line\nThird line!");
    assert_eq!(b.max_row(), 2);
    assert_eq!(b.max_row_pos(0).expect("max_row_pos"), Position::new(0, 10));
    assert_eq!(b.max_row_pos(2).expect("max_row_pos"), Position::new(2, 11));
    assert_eq!(b.max_pos(), Position::new(2, 11));

    let b = buffer_with_content("");
    assert_eq!(b.max_row(), 0);
    assert_eq!(b.max_pos(), Position::new(0, 0));
}

#[test]
fn buffer_pos_trailing_newline() {
    // A trailing newline means one more, empty, line.
    let b = buffer_with_content("First line\nSecond line\nThird line!\n");
    assert_eq!(b.max_row(), 3);
    assert_eq!(b.max_pos(), Position::new(3, 0));
    assert_eq!(b.line_count(), 4);
    assert_eq!(b.get_line(3).expect("get_line"), "");
    assert_eq!(b.get_content(), "First line\nSecond line\nThird line!\n");
}

#[test]
fn buffer_set_text() {
    let mut b = buffer_with_content("First line\nSecond line\nThird line!");
    b.set_text(&Position::new(0, 6), &Position::new(2, 5), ":)").expect("set_text");
    assert_eq!(b.get_content(), "First :) line!");

    b.set_text(&Position::new(0, 6), &Position::new(0, 9), "").expect("set_text");
    assert_eq!(b.get_content(), "First line!");

    b.set_text(&Position::new(0, 11), &Position::new(0, 11), " (wow)").expect("set_text");
    assert_eq!(b.get_content(), "First line! (wow)");

    let mut b = buffer_with_content("\n\nSome line\n");
    b.set_text(&Position::new(2, 0), &Position::new(2, 9), "").expect("set_text");
    assert_eq!(b.get_content(), "\n\n\n");

    b.set_text(&Position::new(2, 0), &Position::new(2, 0), "This was empty").expect("set_text");
    assert_eq!(b.get_content(), "\n\nThis was empty\n");

    b.set_text(&Position::new(0, 0), &Position::new(2, 0), "New line\n").expect("set_text");
    assert_eq!(b.get_content(), "New line\nThis was empty\n");

    b.set_text(&Position::new(1, 0), &Position::new(1, 0), "Hey, ").expect("set_text");
    assert_eq!(b.get_content(), "New line\nHey, This was empty\n");
}

#[test]
fn buffer_set_text_errors() {
    let mut b = buffer_with_content("ab\ncd");
    let e = b.set_text(&Position::new(2, 0), &Position::new(2, 0), "x").unwrap_err();
    assert_eq!(e, BufferError::RowOutOfBounds { row: 2, limit: 1 });
    let e = b.set_text(&Position::new(0, 3), &Position::new(1, 0), "x").unwrap_err();
    assert_eq!(e, BufferError::ColOutOfBounds { col: 3, limit: 2 });
    // An end past its line is reported after a valid start.
    let e = b.set_text(&Position::new(0, 0), &Position::new(1, 3), "x").unwrap_err();
    assert_eq!(e, BufferError::ColOutOfBounds { col: 3, limit: 2 });
    // A refused edit changes nothing.
    assert_eq!(b.get_content(), "ab\ncd");
}

#[test]
fn buffer_splice_is_prefix_text_suffix() {
    // The content after a splice is prefix + inserted + suffix.
    let mut b = buffer_with_content("First line\nSecond line\nThird line!");
    let prefix = "First ";  // content up to (0, 6)
    let suffix = " line!";  // content from (2, 5)
    b.set_text(&Position::new(0, 6), &Position::new(2, 5), "middle\npiece").expect("set_text");
    assert_eq!(b.get_content(), format!("{prefix}middle\npiece{suffix}"));
}

#[test]
fn buffer_append() {
    let mut b = buffer_with_content("");
    b.append("First line").expect("append");
    assert_eq!(b.get_content(), "First line");
    b.append("\nSecond line").expect("append");
    assert_eq!(b.get_content(), "First line\nSecond line");
}

#[test]
fn buffer_prepend() {
    let mut b = buffer_with_content("");
    b.prepend("Second line").expect("prepend");
    assert_eq!(b.get_content(), "Second line");
    b.prepend("First line\n").expect("prepend");
    assert_eq!(b.get_content(), "First line\nSecond line");
}

#[test]
fn buffer_pos_append() {
    let mut b = buffer_with_content("First line\nSecond line\nThird line!");

    b.append_at_position(&Position::new(1, 6), "test ").expect("append_at_position");
    assert_eq!(b.get_content(), "First line\nSecond test line\nThird line!");

    b.append_at_position(&Position::new(2, 10), " :)").expect("append_at_position");
    assert_eq!(b.get_content(), "First line\nSecond test line\nThird line! :)");

    let e = b.append_at_position(&Position::new(3, 0), ":(").unwrap_err();
    assert_eq!(e, BufferError::RowOutOfBounds { row: 3, limit: 2 });
    let e = b.append_at_position(&Position::new(1, 17), ":(").unwrap_err();
    assert_eq!(e, BufferError::ColOutOfBounds { col: 17, limit: 16 });

    b.prepend_at_position(&Position::new(1, 16), " ;)").expect("prepend_at_position");
    assert_eq!(b.get_content(), "First line\nSecond test line ;)\nThird line! :)");

    b.prepend_at_position(&Position::new(0, 0), "Actual first line\n").expect(
        "prepend_at_position",
    );
    assert_eq!(
        b.get_content(),
        "Actual first line\nFirst line\nSecond test line ;)\nThird line! :)"
    );

    let e = b.prepend_at_position(&Position::new(4, 0), ":(").unwrap_err();
    assert_eq!(e, BufferError::RowOutOfBounds { row: 4, limit: 3 });
}

#[test]
fn buffer_get_lines_and_errors() {
    let b = buffer_with_content("a\nbb\nccc");
    let v = b.get_lines(0, 3).expect("get_lines");
    assert_eq!(v, vec!["a".to_string(), "bb".to_string(), "ccc".to_string()]);
    let v = b.get_lines(1, 2).expect("get_lines");
    assert_eq!(v, vec!["bb".to_string()]);
    assert!(b.get_lines(2, 2).expect("get_lines").is_empty());
    let e = b.get_lines(0, 4).unwrap_err();
    assert_eq!(e, BufferError::RowOutOfBounds { row: 3, limit: 2 });
    let e = b.get_line(3).unwrap_err();
    assert_eq!(e, BufferError::RowOutOfBounds { row: 3, limit: 2 });
    assert_eq!(b.get_all_lines(), vec!["a".to_string(), "bb".to_string(), "ccc".to_string()]);
}

#[test]
fn buffer_validate_pos() {
    let b = buffer_with_content("ab\nc");
    assert!(b.validate_pos(&Position::new(0, 0)).is_ok());
    assert!(b.validate_pos(&Position::new(0, 2)).is_ok());
    assert!(b.validate_pos(&Position::new(1, 1)).is_ok());
    let e = b.validate_pos(&Position::new(2, 0)).unwrap_err();
    assert_eq!(e, BufferError::RowOutOfBounds { row: 2, limit: 1 });
    let e = b.validate_pos(&Position::new(1, 2)).unwrap_err();
    assert_eq!(e, BufferError::ColOutOfBounds { col: 2, limit: 1 });
}

#[test]
fn buffer_set_line() {
    let mut b = buffer_with_content("one\ntwo\nthree");
    b.set_line(1, "TWO").expect("set_line");
    assert_eq!(b.get_content(), "one\nTWO\nthree");
    // A line holding a newline splices in an extra row.
    b.set_line(1, "2\n2.5").expect("set_line");
    assert_eq!(b.get_content(), "one\n2\n2.5\nthree");
    let e = b.set_line(4, "x").unwrap_err();
    assert_eq!(e, BufferError::RowOutOfBounds { row: 4, limit: 3 });
}

#[test]
fn buffer_content_round_trip() {
    // Writing a buffer's own content back over its full range is a no-op.
    for content in ["", "a", "a\nb", "trailing\n", "\n\nmid\n"] {
        let mut b = buffer_with_content(content);
        let read = b.get_content();
        b.set_content(&read).expect("set_content");
        assert_eq!(b.get_content(), content);
        assert_eq!(b.line_count(), content.split('\n').count());
    }
}

#[test]
fn buffer_line_count_never_zero() {
    let b = TextBuffer::new();
    assert_eq!(b.line_count(), 1);
    let b = buffer_with_content("");
    assert_eq!(b.line_count(), 1);
    assert_eq!(b.get_line(b.max_row()).expect("last line"), "");
}

#[test]
fn buffer_append_many_ordered() {
    // Appends of "i\n" pile up in order, leaving one final empty line.
    let mut b = buffer_with_content("");
    let mut expected = String::new();
    for i in 0..200 {
        let line = format!("{i}\n");
        b.append(&line).expect("append");
        expected.push_str(&line);
    }
    assert_eq!(b.get_content(), expected);
}

#[test]
fn buffer_append_sets() {
    // Appends in any order produce the same multiset of lines: each
    // append is one atomic splice at the end of the buffer.
    let mut b = buffer_with_content("");
    let order = [3usize, 0, 7, 1, 5, 2, 6, 4];
    for i in order {
        b.append(&format!("{i}\n")).expect("append");
    }
    let mut values = b.get_all_lines();
    values.sort();
    let mut expected: Vec<String> = (0..8).map(|i: usize| i.to_string()).collect();
    expected.push(String::new());
    expected.sort();
    assert_eq!(values, expected);
}
