use eel::buffer::TextBuffer;
use eel::error::BufferError;
use eel::position::Position;
use eel::region::BufferRegion;

fn buffer_with_content(content: &str) -> TextBuffer {
    let mut b = TextBuffer::new();
    b.set_content(content).expect("set_content");
    b
}

fn test_region() -> (TextBuffer, BufferRegion) {
    let mut b = buffer_with_content("First line\nSecond line\nThird line\nFourth line");
    let region = BufferRegion::new(&mut b, &Position::new(1, 2), &Position::new(2, 5))
        .expect("region");
    (b, region)
}

#[test]
fn region_line_count() {
    let (b, region) = test_region();
    assert_eq!(region.line_count(&b).expect("line_count"), 2);
}

#[test]
fn region_get_lines() {
    let (b, region) = test_region();
    assert_eq!(
        region.get_lines(&b, 0, 2).expect("get_lines"),
        vec!["cond line".to_string(), "Third".to_string()]
    );
    assert_eq!(region.get_line(&b, 0).expect("get_line"), "cond line");
    assert_eq!(region.get_line(&b, 1).expect("get_line"), "Third");
    assert_eq!(region.get_content(&b).expect("get_content"), "cond line\nThird");
    let e = region.get_line(&b, 2).unwrap_err();
    assert_eq!(e, BufferError::RowOutOfBounds { row: 2, limit: 1 });
    let e = region.get_lines(&b, 0, 3).unwrap_err();
    assert_eq!(e, BufferError::RowOutOfBounds { row: 2, limit: 1 });
}

#[test]
fn region_position_cases() {
    let (b, region) = test_region();
    assert_eq!(
        region.region_position(&b, &Position::new(2, 1)).expect("region_position"),
        Position::new(1, 1)
    );
    assert_eq!(
        region.region_position(&b, &Position::new(1, 3)).expect("region_position"),
        Position::new(0, 1)
    );
    let e = region.region_position(&b, &Position::new(1, 1)).unwrap_err();
    assert_eq!(e, BufferError::ColOutOfBounds { col: -1, limit: 0 });
    let e = region.region_position(&b, &Position::new(2, 6)).unwrap_err();
    assert_eq!(e, BufferError::ColOutOfBounds { col: 6, limit: 5 });
    let e = region.region_position(&b, &Position::new(0, 0)).unwrap_err();
    assert_eq!(e, BufferError::RowOutOfBounds { row: -1, limit: 0 });
    let e = region.region_position(&b, &Position::new(3, 0)).unwrap_err();
    assert_eq!(e, BufferError::RowOutOfBounds { row: 2, limit: 1 });
}

#[test]
fn region_real_position() {
    let (b, region) = test_region();
    assert_eq!(
        region.real_position(&b, &Position::new(0, 3)).expect("real_position"),
        Position::new(1, 5)
    );
    assert_eq!(
        region.real_position(&b, &Position::new(1, 4)).expect("real_position"),
        Position::new(2, 4)
    );
}

#[test]
fn region_projection_round_trip() {
    // Translating into the parent and back returns the position, and the
    // other way around for parent positions inside the region.
    let (b, region) = test_region();
    for p in [Position::new(0, 0), Position::new(0, 7), Position::new(1, 0), Position::new(1, 5)] {
        let q = region.real_position(&b, &p).expect("real_position");
        assert_eq!(region.region_position(&b, &q).expect("region_position"), p);
    }
    for q in [Position::new(1, 2), Position::new(1, 9), Position::new(2, 0), Position::new(2, 5)] {
        let p = region.region_position(&b, &q).expect("region_position");
        assert_eq!(region.real_position(&b, &p).expect("real_position"), q);
    }
}

#[test]
fn region_set_text() {
    let (mut b, region) = test_region();

    region.append(&mut b, " line\nFourth line\nFifth").expect("append");
    assert_eq!(
        region.get_content(&b).expect("get_content"),
        "cond line\nThird line\nFourth line\nFifth"
    );
    assert_eq!(
        b.get_content(),
        "First line\nSecond line\nThird line\nFourth line\nFifth line\nFourth line"
    );

    region.prepend(&mut b, "ll me on it\n").expect("prepend");
    assert_eq!(
        region.get_content(&b).expect("get_content"),
        "ll me on it\ncond line\nThird line\nFourth line\nFifth"
    );
    assert_eq!(
        b.get_content(),
        "First line\nSell me on it\ncond line\nThird line\nFourth line\nFifth line\nFourth line"
    );

    region.set_line(&mut b, 1, "Second line").expect("set_line");
    assert_eq!(
        region.get_content(&b).expect("get_content"),
        "ll me on it\nSecond line\nThird line\nFourth line\nFifth"
    );
    assert_eq!(
        b.get_content(),
        "First line\nSell me on it\nSecond line\nThird line\nFourth line\nFifth line\nFourth line"
    );
}

#[test]
fn region_empty() {
    let mut b = buffer_with_content("First line\nSecond line\nThird line\nFourth line");
    let region = BufferRegion::new(&mut b, &Position::new(1, 11), &Position::new(1, 11))
        .expect("region");

    assert_eq!(region.line_count(&b).expect("line_count"), 1);
    assert_eq!(region.get_content(&b).expect("get_content"), "");

    region.set_content(&mut b, "\nActual third line").expect("set_content");
    assert_eq!(region.get_content(&b).expect("get_content"), "\nActual third line");
    assert_eq!(region.line_count(&b).expect("line_count"), 2);

    assert_eq!(
        b.get_content(),
        "First line\nSecond line\nActual third line\nThird line\nFourth line"
    );
}

#[test]
fn region_write_validates() {
    let (mut b, region) = test_region();
    let e = region.set_text(&mut b, &Position::new(0, 0), &Position::new(2, 0), "x").unwrap_err();
    assert_eq!(e, BufferError::RowOutOfBounds { row: 2, limit: 1 });
    let e = region.set_text(&mut b, &Position::new(0, 10), &Position::new(1, 0), "x").unwrap_err();
    assert_eq!(e, BufferError::ColOutOfBounds { col: 10, limit: 9 });
    // A refused edit changes nothing.
    assert_eq!(b.get_content(), "First line\nSecond line\nThird line\nFourth line");
}

#[test]
fn region_marks_and_cursor() {
    let (mut b, region) = test_region();
    // A mark created through the region lives in parent coordinates but
    // answers in region coordinates.
    let id = region.create_mark(&mut b, &Position::new(1, 2)).expect("create_mark");
    assert_eq!(region.get_mark_position(&b, id).expect("get_mark_position"), Position::new(1, 2));
    assert_eq!(b.get_mark_position(id).expect("get_mark_position"), Position::new(2, 2));

    region.set_mark_position(&mut b, id, &Position::new(0, 1)).expect("set_mark_position");
    assert_eq!(b.get_mark_position(id).expect("get_mark_position"), Position::new(1, 3));

    region.set_cursor(&mut b, &Position::new(1, 1)).expect("set_cursor");
    assert_eq!(b.get_cursor(), Position::new(2, 1));
    assert_eq!(region.get_cursor(&b).expect("get_cursor"), Position::new(1, 1));

    // A parent cursor outside the region back-translates to an error.
    b.set_cursor(&Position::new(0, 0)).expect("set_cursor");
    let e = region.get_cursor(&b).unwrap_err();
    assert_eq!(e, BufferError::RowOutOfBounds { row: -1, limit: 0 });

    region.destroy_mark(&mut b, id).expect("destroy_mark");
    assert_eq!(region.get_mark_position(&b, id).unwrap_err(), BufferError::MarkDestroyed);
}

#[test]
fn region_grows_only_inward() {
    // An insert at the region's first position lands inside: the
    // left-leaning start stays put, the right-leaning end advances.
    let (mut b, region) = test_region();
    region.prepend(&mut b, "XY").expect("prepend");
    assert_eq!(region.get_content(&b).expect("get_content"), "XYcond line\nThird");
    // An insert just before the region stays outside of it.
    b.set_text(&Position::new(1, 1), &Position::new(1, 1), "AB").expect("set_text");
    assert_eq!(region.get_content(&b).expect("get_content"), "XYcond line\nThird");
    assert_eq!(b.get_line(1).expect("get_line"), "SABeXYcond line");
}

#[test]
fn region_composes_recursively() {
    // A region built inside a region is a region of the same parent,
    // its coordinates translated twice.
    let (mut b, outer) = test_region();
    // Inside "cond line\nThird": the span from (0, 5) to (1, 5).
    let inner = outer.subregion(&mut b, &Position::new(0, 5), &Position::new(1, 5))
        .expect("subregion");
    assert_eq!(inner.get_content(&b).expect("get_content"), "line\nThird");
    assert_eq!(inner.line_count(&b).expect("line_count"), 2);

    // Writing through the inner region is visible through the outer one
    // and through the parent alike.
    inner.set_line(&mut b, 0, "LINE").expect("set_line");
    assert_eq!(inner.get_content(&b).expect("get_content"), "LINE\nThird");
    assert_eq!(outer.get_content(&b).expect("get_content"), "cond LINE\nThird");
    assert_eq!(
        b.get_content(),
        "First line\nSecond LINE\nThird line\nFourth line"
    );
}

#[test]
fn region_on_wrong_buffer() {
    // A region asked about a buffer that never held its marks reports
    // them destroyed; one whose ids resolve to inverted positions
    // reports the custom violation.
    let (_, region) = test_region();
    let other = buffer_with_content("zzz");
    assert_eq!(region.line_count(&other).unwrap_err(), BufferError::MarkDestroyed);

    let mut tangled = buffer_with_content("abcdef");
    // Mint two marks so the region's ids resolve, but out of order.
    let first = tangled.create_mark(&Position::new(0, 4)).expect("create_mark");
    let second = tangled.create_mark(&Position::new(0, 1)).expect("create_mark");
    let inverted = BufferRegion { start_id: first, end_id: second };
    match inverted.line_count(&tangled).unwrap_err() {
        BufferError::Custom(_) => {},
        other => panic!("expected the custom bounds violation, got {other:?}"),
    }
}
