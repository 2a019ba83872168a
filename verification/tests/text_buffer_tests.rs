use text_buffer::{Position, Range, TextBuffer, TextBufferBuilder};

#[test]
fn text_buffer_test_empty_buffer() {
    let buffer = TextBuffer::new();
    assert!(buffer.is_empty());
    assert_eq!(buffer.length(), 0);
    assert_eq!(buffer.line_count(), 1);
}

#[test]
fn test_from_text() {
    let buffer = TextBuffer::from_text("Hello\nWorld\n");
    assert!(!buffer.is_empty());
    assert_eq!(buffer.length(), 12);
    assert_eq!(buffer.line_count(), 3);
}

#[test]
fn test_get_line_content() {
    let buffer = TextBuffer::from_text("Hello\nWorld\nTest");

    assert_eq!(buffer.get_line_content(0).unwrap(), "Hello");
    assert_eq!(buffer.get_line_content(1).unwrap(), "World");
    assert_eq!(buffer.get_line_content(2).unwrap(), "Test");
    assert!(buffer.get_line_content(3).is_err());
}

#[test]
fn test_get_line_length() {
    let buffer = TextBuffer::from_text("Hello\nWorld\n");

    assert_eq!(buffer.get_line_length(0).unwrap(), 5); // "Hello"
    assert_eq!(buffer.get_line_length(1).unwrap(), 5); // "World"
    assert_eq!(buffer.get_line_length(2).unwrap(), 0); // Empty line
}

#[test]
fn test_position_offset_conversion() {
    let buffer = TextBuffer::from_text("Hello\nWorld\n");

    // Test position to offset
    assert_eq!(buffer.position_to_offset(Position::new(0, 0)).unwrap(), 0);
    assert_eq!(buffer.position_to_offset(Position::new(0, 5)).unwrap(), 5);
    assert_eq!(buffer.position_to_offset(Position::new(1, 0)).unwrap(), 6);
    assert_eq!(buffer.position_to_offset(Position::new(1, 5)).unwrap(), 11);

    // Test offset to position
    assert_eq!(buffer.offset_to_position(0).unwrap(), Position::new(0, 0));
    assert_eq!(buffer.offset_to_position(5).unwrap(), Position::new(0, 5));
    assert_eq!(buffer.offset_to_position(6).unwrap(), Position::new(1, 0));
    assert_eq!(buffer.offset_to_position(11).unwrap(), Position::new(1, 5));
}

#[test]
fn test_get_all_text() {
    let text = "Hello\nWorld\nTest";
    let buffer = TextBuffer::from_text(text);
    assert_eq!(buffer.get_all_text(), text);
}

#[test]
fn test_get_text_in_range() {
    let buffer = TextBuffer::from_text("Hello\nWorld\nTest");

    let range = Range::new(Position::new(0, 0), Position::new(0, 5));
    assert_eq!(buffer.get_text_in_range(range).unwrap(), "Hello");

    let range = Range::new(Position::new(1, 0), Position::new(1, 5));
    assert_eq!(buffer.get_text_in_range(range).unwrap(), "World");

    let range = Range::new(Position::new(0, 0), Position::new(2, 4));
    assert_eq!(
        buffer.get_text_in_range(range).unwrap(),
        "Hello\nWorld\nTest"
    );
}

#[test]
fn test_builder() {
    let mut builder = TextBufferBuilder::new();
    builder.accept_chunk("Hello");
    builder.accept_chunk("\n");
    builder.accept_chunk("World");

    let buffer = builder.build();
    assert_eq!(buffer.get_all_text(), "Hello\nWorld");
    assert_eq!(buffer.line_count(), 2);
}

#[test]
fn test_insert() {
    let mut buffer = TextBuffer::from_text("Hello\nWorld");
    let result = buffer.insert(Position::new(0, 5), " there");
    assert!(result.is_ok());
}
