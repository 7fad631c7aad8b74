use eel::position::{NativePosition, Position};

#[test]
fn position_new_and_origin() {
    let p = Position::new(3, 7);
    assert_eq!(p.row, 3);
    assert_eq!(p.col, 7);
    assert_eq!(Position::origin(), Position::new(0, 0));
}

#[test]
fn position_steps() {
    let p = Position::new(2, 2);
    assert_eq!(p.next_col(), Position::new(2, 3));
    assert_eq!(p.next_row(), Position::new(3, 2));
    assert_eq!(p.prev_col(), Position::new(2, 1));
    assert_eq!(p.prev_row(), Position::new(1, 2));
    // Stepping back saturates at the origin.
    assert_eq!(Position::origin().prev_col(), Position::origin());
    assert_eq!(Position::origin().prev_row(), Position::origin());
}

#[test]
fn position_order() {
    assert!(Position::new(0, 5).le(&Position::new(1, 0)));
    assert!(Position::new(1, 3).le(&Position::new(1, 3)));
    assert!(!Position::new(1, 4).le(&Position::new(1, 3)));
    assert!(!Position::new(2, 0).le(&Position::new(1, 9)));
}

#[test]
fn position_offset() {
    // A same-line displacement shifts the column.
    assert_eq!(Position::new(1, 4).offset(&Position::new(0, 3)), Position::new(1, 7));
    // A multi-line displacement lands on the displacement's own column.
    assert_eq!(Position::new(1, 4).offset(&Position::new(2, 3)), Position::new(3, 3));
}

#[test]
fn max_text_pos_values() {
    assert_eq!(Position::max_text_pos(""), Position::new(0, 0));
    assert_eq!(Position::max_text_pos("abc"), Position::new(0, 3));
    assert_eq!(Position::max_text_pos("ab\ncdef"), Position::new(1, 4));
    // A trailing newline opens one final empty line.
    assert_eq!(Position::max_text_pos("ab\n"), Position::new(1, 0));
    assert_eq!(Position::max_text_pos("\n\n"), Position::new(2, 0));
}

#[test]
fn native_position_conversions() {
    let p = Position::new(0, 0);
    let n = p.to_native();
    assert_eq!(n, NativePosition { row: 1, col: 1 });
    assert_eq!(n.to_position(), p);
    let q = NativePosition { row: 5, col: 3 }.to_position();
    assert_eq!(q, Position::new(4, 2));
    // Host zeros saturate back to the origin.
    assert_eq!(NativePosition { row: 0, col: 0 }.to_position(), Position::new(0, 0));
}
