use text_buffer::{Position, Range, TextBuffer, TextBufferBuilder, TextBufferError};

#[test]
fn chunks_come_back_as_one_text() {
    let chunks = ["Hello", "", "\n", "W\u{f6}rld", "\n\n", "\u{1f600}"];
    let mut builder = TextBufferBuilder::new();
    let mut expected = String::new();
    for chunk in chunks {
        builder.accept_chunk(chunk);
        expected.push_str(chunk);
    }
    let buffer = builder.build();
    assert_eq!(buffer.get_all_text(), expected);
    assert_eq!(buffer.length(), expected.len());
}

#[test]
fn chunks_can_be_chained() {
    let mut builder = TextBufferBuilder::default();
    builder.accept_chunk("a").accept_chunk("b\n").accept_chunk("c");
    let buffer = builder.build();
    assert_eq!(buffer.get_all_text(), "ab\nc");
    assert_eq!(buffer.line_count(), 2);
}

#[test]
fn a_builder_without_chunks_builds_one_empty_line() {
    let buffer = TextBufferBuilder::new().build();
    assert!(buffer.is_empty());
    assert_eq!(buffer.line_count(), 1);
    assert_eq!(buffer.get_line_content(0).unwrap(), "");
    assert_eq!(buffer.get_all_text(), "");
    let mut builder = TextBufferBuilder::new();
    builder.accept_chunk("");
    let buffer = builder.build();
    assert_eq!(buffer.line_count(), 1);
    assert_eq!(buffer.length(), 0);
}

#[test]
fn offsets_and_positions_are_inverse() {
    let text = "caf\u{e9}\na\u{1f600}b\n\nlast";
    let mut buffer = TextBuffer::from_text(text);
    assert_eq!(buffer.insert(Position::new(1, 1), "\u{4e2d}\n"), Ok(()));
    let text = buffer.get_all_text();
    for offset in 0..=text.len() {
        let position = buffer.offset_to_position(offset);
        if text.is_char_boundary(offset) {
            let position = position.unwrap();
            assert_eq!(buffer.position_to_offset(position), Ok(offset));
        } else {
            assert_eq!(position, Err(TextBufferError::OffsetOutOfBounds));
        }
    }
    assert_eq!(
        buffer.offset_to_position(text.len() + 1),
        Err(TextBufferError::OffsetOutOfBounds)
    );
}

#[test]
fn line_count_is_one_more_than_the_line_breaks() {
    for text in ["", "a", "\n", "a\n", "a\nb", "\n\n\n", "a\u{e9}\n\u{1f600}\n"] {
        let buffer = TextBuffer::from_text(text);
        assert_eq!(buffer.line_count(), text.matches('\n').count() + 1);
        assert!(buffer.line_count() >= 1);
    }
}

#[test]
fn the_whole_range_is_the_whole_text() {
    let buffer = TextBuffer::from_text("Hello\nW\u{f6}rld\nTest");
    let last = buffer.line_count() - 1;
    let length = buffer.get_line_length(last).unwrap();
    let whole = Range::new(Position::new(0, 0), Position::new(last, length));
    assert_eq!(buffer.get_text_in_range(whole).unwrap(), buffer.get_all_text());
}

#[test]
fn insert_keeps_what_lies_around_it() {
    let text = "Hello\nW\u{f6}rld\nTest";
    let mut buffer = TextBuffer::from_text(text);
    let position = Position::new(1, 2);
    let offset = buffer.position_to_offset(position).unwrap();
    assert_eq!(offset, 9);
    assert_eq!(buffer.insert(position, "<\u{1f600}>"), Ok(()));
    let expected = format!("{}{}{}", &text[..offset], "<\u{1f600}>", &text[offset..]);
    assert_eq!(buffer.get_all_text(), expected);
}

#[test]
fn columns_count_scalar_values() {
    let buffer = TextBuffer::from_text("caf\u{e9}\na\u{1f600}b");
    assert_eq!(buffer.length(), 12);
    assert_eq!(buffer.line_count(), 2);
    assert_eq!(buffer.get_line_content(0).unwrap(), "caf\u{e9}");
    assert_eq!(buffer.get_line_content(1).unwrap(), "a\u{1f600}b");
    assert_eq!(buffer.get_line_length(0).unwrap(), 4);
    assert_eq!(buffer.get_line_length(1).unwrap(), 3);
    assert_eq!(buffer.position_to_offset(Position::new(0, 3)), Ok(3));
    assert_eq!(buffer.position_to_offset(Position::new(0, 4)), Ok(5));
    assert_eq!(buffer.position_to_offset(Position::new(1, 0)), Ok(6));
    assert_eq!(buffer.position_to_offset(Position::new(1, 1)), Ok(7));
    assert_eq!(buffer.position_to_offset(Position::new(1, 2)), Ok(11));
    assert_eq!(buffer.position_to_offset(Position::new(1, 3)), Ok(12));
    assert_eq!(buffer.offset_to_position(5), Ok(Position::new(0, 4)));
    assert_eq!(buffer.offset_to_position(11), Ok(Position::new(1, 2)));
    assert_eq!(buffer.offset_to_position(12), Ok(Position::new(1, 3)));
    assert_eq!(
        buffer.offset_to_position(4),
        Err(TextBufferError::OffsetOutOfBounds)
    );
    assert_eq!(
        buffer.offset_to_position(9),
        Err(TextBufferError::OffsetOutOfBounds)
    );
    let range = Range::new(Position::new(0, 3), Position::new(1, 2));
    assert_eq!(buffer.get_text_in_range(range).unwrap(), "\u{e9}\na\u{1f600}");
}

#[test]
fn an_empty_document_has_one_empty_line() {
    let buffer = TextBuffer::default();
    assert_eq!(buffer.line_count(), 1);
    assert_eq!(buffer.length(), 0);
    assert_eq!(buffer.get_line_content(0).unwrap(), "");
    assert_eq!(buffer.get_line_length(0), Ok(0));
    assert_eq!(buffer.position_to_offset(Position::new(0, 0)), Ok(0));
    assert_eq!(buffer.offset_to_position(0), Ok(Position::new(0, 0)));
    assert_eq!(
        buffer.position_to_offset(Position::new(0, 1)),
        Err(TextBufferError::PositionOutOfBounds)
    );
    assert_eq!(
        buffer.offset_to_position(1),
        Err(TextBufferError::OffsetOutOfBounds)
    );
    let buffer = TextBuffer::from_text("");
    assert_eq!(buffer.line_count(), 1);
    assert_eq!(buffer.get_all_text(), "");
}

#[test]
fn a_line_break_at_the_end_begins_an_empty_line() {
    let buffer = TextBuffer::from_text("a\n");
    assert_eq!(buffer.line_count(), 2);
    assert_eq!(buffer.get_line_content(0).unwrap(), "a");
    assert_eq!(buffer.get_line_content(1).unwrap(), "");
    assert_eq!(buffer.get_line_length(1), Ok(0));
    assert_eq!(buffer.position_to_offset(Position::new(1, 0)), Ok(2));
    assert_eq!(buffer.offset_to_position(2), Ok(Position::new(1, 0)));
}

#[test]
fn a_line_that_is_not_there() {
    let buffer = TextBuffer::from_text("a\nb");
    let count = buffer.line_count();
    assert_eq!(
        buffer.get_line_content(count),
        Err(TextBufferError::LineOutOfBounds)
    );
    assert_eq!(
        buffer.get_line_length(count),
        Err(TextBufferError::LineOutOfBounds)
    );
    assert_eq!(
        buffer.position_to_offset(Position::new(count, 0)),
        Err(TextBufferError::PositionOutOfBounds)
    );
}

#[test]
fn a_column_behind_the_end_of_its_line() {
    let buffer = TextBuffer::from_text("Hello\nWorld");
    assert_eq!(
        buffer.position_to_offset(Position::new(0, 6)),
        Err(TextBufferError::PositionOutOfBounds)
    );
    assert_eq!(
        buffer.position_to_offset(Position::new(1, 6)),
        Err(TextBufferError::PositionOutOfBounds)
    );
    assert_eq!(buffer.position_to_offset(Position::new(1, 5)), Ok(11));
}

#[test]
fn a_range_that_cannot_be_used() {
    let buffer = TextBuffer::from_text("Hello\nWorld");
    let start = Position::new(0, 2);
    assert_eq!(
        buffer.get_text_in_range(Range::new(start, start)),
        Err(TextBufferError::InvalidRange)
    );
    assert_eq!(
        buffer.get_text_in_range(Range::new(Position::new(1, 0), start)),
        Err(TextBufferError::InvalidRange)
    );
    assert_eq!(
        buffer.get_text_in_range(Range::new(start, Position::new(5, 0))),
        Err(TextBufferError::PositionOutOfBounds)
    );
    assert_eq!(
        buffer.get_text_in_range(Range::new(Position::new(0, 9), Position::new(1, 0))),
        Err(TextBufferError::PositionOutOfBounds)
    );
}

#[test]
fn a_copy_does_not_follow_the_edits() {
    let mut buffer = TextBuffer::from_text("one\ntwo");
    let copy = buffer.clone();
    assert_eq!(buffer.insert(Position::new(0, 3), "!"), Ok(()));
    assert_eq!(copy.get_all_text(), "one\ntwo");
    assert_eq!(buffer.get_all_text(), "one!\ntwo");
}
