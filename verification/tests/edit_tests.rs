use text_buffer::{Position, Range, TextBuffer, TextBufferBuilder, TextBufferError};

fn range(start_line: usize, start_column: usize, end_line: usize, end_column: usize) -> Range {
    Range::new(
        Position::new(start_line, start_column),
        Position::new(end_line, end_column),
    )
}

#[test]
fn insert_in_the_middle_of_a_line() {
    let mut buffer = TextBuffer::from_text("Hello\nWorld");
    assert_eq!(buffer.insert(Position::new(0, 5), " there"), Ok(()));
    assert_eq!(buffer.get_all_text(), "Hello there\nWorld");
    assert_eq!(buffer.length(), 17);
    assert_eq!(buffer.line_count(), 2);
    assert_eq!(buffer.get_line_content(0).unwrap(), "Hello there");
    assert_eq!(buffer.get_line_content(1).unwrap(), "World");
}

#[test]
fn insert_at_the_start_and_at_the_end() {
    let mut buffer = TextBuffer::from_text("middle");
    assert_eq!(buffer.insert(Position::new(0, 0), "start "), Ok(()));
    assert_eq!(buffer.insert(Position::new(0, 12), " end"), Ok(()));
    assert_eq!(buffer.get_all_text(), "start middle end");
    assert_eq!(buffer.insert(Position::new(0, 16), "\nnext"), Ok(()));
    assert_eq!(buffer.get_all_text(), "start middle end\nnext");
    assert_eq!(buffer.line_count(), 2);
    assert_eq!(buffer.insert(Position::new(1, 4), "!"), Ok(()));
    assert_eq!(buffer.get_line_content(1).unwrap(), "next!");
}

#[test]
fn insert_into_an_empty_buffer() {
    let mut buffer = TextBuffer::new();
    assert_eq!(buffer.insert(Position::new(0, 0), "a\nb"), Ok(()));
    assert_eq!(buffer.get_all_text(), "a\nb");
    assert_eq!(buffer.line_count(), 2);
    assert_eq!(buffer.length(), 3);
}

#[test]
fn insert_inside_inserted_text() {
    let mut buffer = TextBuffer::from_text("0123456789");
    assert_eq!(buffer.insert(Position::new(0, 5), "abcdef"), Ok(()));
    assert_eq!(buffer.insert(Position::new(0, 8), "XY"), Ok(()));
    assert_eq!(buffer.insert(Position::new(0, 2), "\n"), Ok(()));
    assert_eq!(buffer.get_all_text(), "01\n234abcXYdef56789");
    assert_eq!(buffer.line_count(), 2);
    assert_eq!(buffer.get_line_length(1).unwrap(), 16);
    assert_eq!(buffer.position_to_offset(Position::new(1, 6)).unwrap(), 9);
    assert_eq!(buffer.offset_to_position(9).unwrap(), Position::new(1, 6));
}

#[test]
fn insert_nothing_changes_nothing() {
    let mut buffer = TextBuffer::from_text("Hello");
    assert_eq!(buffer.insert(Position::new(0, 2), ""), Ok(()));
    assert_eq!(buffer.get_all_text(), "Hello");
    assert_eq!(buffer.length(), 5);
}

#[test]
fn insert_at_a_place_that_is_not_there() {
    let mut buffer = TextBuffer::from_text("Hello\nWorld");
    assert_eq!(
        buffer.insert(Position::new(0, 6), "x"),
        Err(TextBufferError::PositionOutOfBounds)
    );
    assert_eq!(
        buffer.insert(Position::new(2, 0), "x"),
        Err(TextBufferError::PositionOutOfBounds)
    );
    assert_eq!(
        buffer.insert(Position::new(2, 0), ""),
        Err(TextBufferError::PositionOutOfBounds)
    );
    assert_eq!(buffer.get_all_text(), "Hello\nWorld");
    assert_eq!(buffer.length(), 11);
}

#[test]
fn insert_text_of_several_bytes_per_scalar_value() {
    let mut buffer = TextBuffer::from_text("caf\u{e9}\na\u{1f600}b");
    assert_eq!(buffer.insert(Position::new(1, 2), "\u{4e2d}"), Ok(()));
    assert_eq!(buffer.get_all_text(), "caf\u{e9}\na\u{1f600}\u{4e2d}b");
    assert_eq!(buffer.get_line_length(1).unwrap(), 4);
    assert_eq!(buffer.length(), 15);
    assert_eq!(buffer.insert(Position::new(0, 4), "s"), Ok(()));
    assert_eq!(buffer.get_line_content(0).unwrap(), "caf\u{e9}s");
}

#[test]
fn delete_inside_one_piece() {
    let mut buffer = TextBuffer::from_text("Hello\nWorld\nTest");
    let deleted = buffer.delete(range(0, 1, 0, 4));
    assert_eq!(deleted.unwrap(), "ell");
    assert_eq!(buffer.get_all_text(), "Ho\nWorld\nTest");
    assert_eq!(buffer.length(), 13);
    assert_eq!(buffer.line_count(), 3);
}

#[test]
fn delete_across_lines() {
    let mut buffer = TextBuffer::from_text("Hello\nWorld\nTest");
    let deleted = buffer.delete(range(0, 3, 2, 2));
    assert_eq!(deleted.unwrap(), "lo\nWorld\nTe");
    assert_eq!(buffer.get_all_text(), "Helst");
    assert_eq!(buffer.line_count(), 1);
    assert_eq!(buffer.length(), 5);
}

#[test]
fn delete_across_many_pieces() {
    let mut builder = TextBufferBuilder::new();
    builder.accept_chunk("ab");
    builder.accept_chunk("cd\n");
    builder.accept_chunk("ef");
    builder.accept_chunk("gh\n");
    builder.accept_chunk("ij");
    let mut buffer = builder.build();
    assert_eq!(buffer.insert(Position::new(1, 1), "XYZ"), Ok(()));
    assert_eq!(buffer.get_all_text(), "abcd\neXYZfgh\nij");
    let deleted = buffer.delete(range(0, 1, 2, 1));
    assert_eq!(deleted.unwrap(), "bcd\neXYZfgh\ni");
    assert_eq!(buffer.get_all_text(), "aj");
    assert_eq!(buffer.line_count(), 1);
}

#[test]
fn delete_everything() {
    let mut buffer = TextBuffer::from_text("Hello\nWorld");
    let deleted = buffer.delete(range(0, 0, 1, 5));
    assert_eq!(deleted.unwrap(), "Hello\nWorld");
    assert_eq!(buffer.get_all_text(), "");
    assert!(buffer.is_empty());
    assert_eq!(buffer.line_count(), 1);
    assert_eq!(buffer.get_line_content(0).unwrap(), "");
    assert_eq!(buffer.insert(Position::new(0, 0), "again"), Ok(()));
    assert_eq!(buffer.get_all_text(), "again");
}

#[test]
fn delete_whole_pieces_only() {
    let mut builder = TextBufferBuilder::new();
    builder.accept_chunk("one");
    builder.accept_chunk("two");
    builder.accept_chunk("three");
    let mut buffer = builder.build();
    let deleted = buffer.delete(range(0, 3, 0, 6));
    assert_eq!(deleted.unwrap(), "two");
    assert_eq!(buffer.get_all_text(), "onethree");
}

#[test]
fn delete_with_a_range_that_cannot_be_used() {
    let mut buffer = TextBuffer::from_text("Hello\nWorld");
    assert_eq!(
        buffer.delete(range(0, 2, 0, 2)),
        Err(TextBufferError::InvalidRange)
    );
    assert_eq!(
        buffer.delete(range(1, 2, 0, 2)),
        Err(TextBufferError::InvalidRange)
    );
    assert_eq!(
        buffer.delete(range(0, 6, 1, 0)),
        Err(TextBufferError::PositionOutOfBounds)
    );
    assert_eq!(
        buffer.delete(range(0, 0, 2, 0)),
        Err(TextBufferError::PositionOutOfBounds)
    );
    assert_eq!(buffer.get_all_text(), "Hello\nWorld");
}

#[test]
fn delete_then_insert_again_gives_the_document_back() {
    let original = "caf\u{e9}\na\u{1f600}b\nthird line\n";
    let mut buffer = TextBuffer::from_text(original);
    assert_eq!(buffer.insert(Position::new(2, 5), "<in>"), Ok(()));
    let before = buffer.get_all_text();
    let start = Position::new(0, 2);
    let deleted = buffer.delete(Range::new(start, Position::new(2, 7))).unwrap();
    assert_eq!(deleted, "f\u{e9}\na\u{1f600}b\nthird<i");
    assert_eq!(buffer.get_all_text(), "can> line\n");
    assert_eq!(buffer.insert(start, &deleted), Ok(()));
    assert_eq!(buffer.get_all_text(), before);
}

#[test]
fn many_edits_against_a_plain_string() {
    let mut buffer = TextBuffer::from_text("seed\n");
    let mut model = String::from("seed\n");
    let mut seed: usize = 7;
    for round in 0..200usize {
        seed = seed.wrapping_mul(1103515245).wrapping_add(12345) % 2147483648;
        let chars: Vec<char> = model.chars().collect();
        let at = seed % (chars.len() + 1);
        let position = buffer
            .offset_to_position(chars[..at].iter().map(|c| c.len_utf8()).sum())
            .unwrap();
        if round % 3 == 2 && at < chars.len() {
            let until = at + 1 + (seed / 7) % (chars.len() - at);
            let end_offset: usize = chars[..until].iter().map(|c| c.len_utf8()).sum();
            let end = buffer.offset_to_position(end_offset).unwrap();
            let deleted = buffer.delete(Range::new(position, end)).unwrap();
            let expected: String = chars[at..until].iter().collect();
            assert_eq!(deleted, expected);
            model = chars[..at].iter().chain(chars[until..].iter()).collect();
        } else {
            let text = match round % 4 {
                0 => "ab",
                1 => "\n",
                2 => "\u{e9}\u{1f600}",
                _ => "x\ny",
            };
            assert_eq!(buffer.insert(position, text), Ok(()));
            let mut next: String = chars[..at].iter().collect();
            next.push_str(text);
            next.extend(chars[at..].iter());
            model = next;
        }
        assert_eq!(buffer.get_all_text(), model);
        assert_eq!(buffer.length(), model.len());
        assert_eq!(buffer.line_count(), model.matches('\n').count() + 1);
    }
    let lines: Vec<&str> = model.split('\n').collect();
    for (number, line) in lines.iter().enumerate() {
        assert_eq!(&buffer.get_line_content(number).unwrap(), line);
        assert_eq!(buffer.get_line_length(number).unwrap(), line.chars().count());
    }
}

#[test]
fn text_typed_at_one_place_stays_in_one_piece() {
    let mut buffer = TextBuffer::from_text("abc\n");
    assert_eq!(buffer.piece_count(), 1);
    assert_eq!(buffer.insert(Position::new(1, 0), "d"), Ok(()));
    assert_eq!(buffer.piece_count(), 2);
    for (column, text) in [(1, "e"), (2, "f\u{e9}"), (4, "g\n")] {
        assert_eq!(buffer.insert(Position::new(1, column), text), Ok(()));
        assert_eq!(buffer.piece_count(), 2);
    }
    assert_eq!(buffer.get_all_text(), "abc\ndef\u{e9}g\n");
    assert_eq!(buffer.line_count(), 3);
    assert_eq!(buffer.get_line_length(1), Ok(5));
    // somewhere else: a piece of its own, and the piece around it cut in two
    assert_eq!(buffer.insert(Position::new(0, 1), "X"), Ok(()));
    assert_eq!(buffer.piece_count(), 4);
    // behind the text typed first, which is no longer the end of its store
    assert_eq!(buffer.insert(Position::new(2, 0), "h"), Ok(()));
    assert_eq!(buffer.piece_count(), 5);
    // behind the text typed last
    assert_eq!(buffer.insert(Position::new(2, 1), "i"), Ok(()));
    assert_eq!(buffer.piece_count(), 5);
    assert_eq!(buffer.get_all_text(), "aXbc\ndef\u{e9}g\nhi");
}

#[test]
fn pieces_of_an_empty_and_of_an_emptied_document() {
    let mut buffer = TextBuffer::new();
    assert_eq!(buffer.piece_count(), 0);
    assert_eq!(buffer.insert(Position::new(0, 0), "abcdef"), Ok(()));
    assert_eq!(buffer.piece_count(), 1);
    let deleted = buffer.delete(range(0, 2, 0, 4));
    assert_eq!(deleted.unwrap(), "cd");
    assert_eq!(buffer.piece_count(), 2);
    let deleted = buffer.delete(range(0, 0, 0, 4));
    assert_eq!(deleted.unwrap(), "abef");
    assert_eq!(buffer.piece_count(), 0);
    assert!(buffer.is_empty());
}
