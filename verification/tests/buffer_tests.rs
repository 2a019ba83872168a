use text_buffer::Buffer;

#[test]
fn buffer_test_empty_buffer() {
    let buffer = Buffer::new();
    assert!(buffer.is_empty());
    assert_eq!(buffer.len(), 0);
    assert_eq!(buffer.line_count(), 1); // Always at least one line
}

#[test]
fn test_buffer_from_text() {
    let buffer = Buffer::from_text("Hello\nWorld\n");
    assert_eq!(buffer.len(), 12);
    assert_eq!(buffer.line_count(), 3); // "Hello\n", "World\n", ""
    assert_eq!(buffer.line_starts, vec![0, 6, 12]);
}

#[test]
fn test_line_content() {
    let buffer = Buffer::from_text("Hello\nWorld\nTest");
    assert_eq!(buffer.line_content(0), Some("Hello"));
    assert_eq!(buffer.line_content(1), Some("World"));
    assert_eq!(buffer.line_content(2), Some("Test"));
    assert_eq!(buffer.line_content(3), None);
}

#[test]
fn test_append() {
    let mut buffer = Buffer::from_text("Hello");
    buffer.append("\nWorld");
    assert_eq!(buffer.content, "Hello\nWorld");
    assert_eq!(buffer.line_count(), 2);
    assert_eq!(buffer.line_content(0), Some("Hello"));
    assert_eq!(buffer.line_content(1), Some("World"));
}

#[test]
fn test_position_conversion() {
    let buffer = Buffer::from_text("Hello\nWorld\n");

    // Test offset to position
    assert_eq!(buffer.position_at_offset(0), Some((0, 0))); // Start of "Hello"
    assert_eq!(buffer.position_at_offset(5), Some((0, 5))); // End of "Hello"
    assert_eq!(buffer.position_at_offset(6), Some((1, 0))); // Start of "World"
    assert_eq!(buffer.position_at_offset(11), Some((1, 5))); // End of "World"

    // Test position to offset
    assert_eq!(buffer.offset_at_position(0, 0), Some(0));
    assert_eq!(buffer.offset_at_position(0, 5), Some(5));
    assert_eq!(buffer.offset_at_position(1, 0), Some(6));
    assert_eq!(buffer.offset_at_position(1, 5), Some(11));
}

#[test]
fn test_line_at_offset() {
    let buffer = Buffer::from_text("Hello\nWorld\nTest");
    assert_eq!(buffer.line_at_offset(0), Some(0));
    assert_eq!(buffer.line_at_offset(3), Some(0));
    assert_eq!(buffer.line_at_offset(6), Some(1));
    assert_eq!(buffer.line_at_offset(9), Some(1));
    assert_eq!(buffer.line_at_offset(12), Some(2));
}

#[test]
fn buffer_default_is_empty() {
    let buffer = Buffer::default();
    assert!(buffer.is_empty());
    assert_eq!(buffer.line_starts, vec![0]);
}

#[test]
fn buffer_line_bounds() {
    let buffer = Buffer::from_text("ab\n\ncd");
    assert_eq!(buffer.line_start(0), Some(0));
    assert_eq!(buffer.line_start(1), Some(3));
    assert_eq!(buffer.line_start(2), Some(4));
    assert_eq!(buffer.line_start(3), None);
    assert_eq!(buffer.line_end(0), Some(2));
    assert_eq!(buffer.line_end(1), Some(3));
    assert_eq!(buffer.line_end(2), Some(6));
    assert_eq!(buffer.line_end(3), None);
    assert_eq!(buffer.line_content(1), Some(""));
    assert_eq!(buffer.line_at_offset(6), Some(2));
    assert_eq!(buffer.line_at_offset(7), None);
}

#[test]
fn buffer_append_records_line_starts() {
    let mut buffer = Buffer::new();
    buffer.append("a\n");
    buffer.append("");
    buffer.append("b\nc\n");
    assert_eq!(buffer.content, "a\nb\nc\n");
    assert_eq!(buffer.line_starts, vec![0, 2, 4, 6]);
    assert_eq!(buffer.line_count(), 4);
}

#[test]
fn buffer_slice_between_scalar_values() {
    let buffer = Buffer::from_text("caf\u{e9}\na\u{1f600}b");
    assert_eq!(buffer.len(), 12);
    assert_eq!(buffer.slice(3, 5), "\u{e9}");
    assert_eq!(buffer.slice(7, 11), "\u{1f600}");
    assert_eq!(buffer.slice(0, 12), "caf\u{e9}\na\u{1f600}b");
    assert_eq!(buffer.slice(4 + 1, 5), "");
}

#[test]
fn buffer_positions_count_scalar_values() {
    let buffer = Buffer::from_text("caf\u{e9}\na\u{1f600}b");
    assert_eq!(buffer.offset_at_position(0, 3), Some(3));
    assert_eq!(buffer.offset_at_position(0, 4), Some(5));
    assert_eq!(buffer.offset_at_position(0, 5), None);
    assert_eq!(buffer.offset_at_position(1, 0), Some(6));
    assert_eq!(buffer.offset_at_position(1, 1), Some(7));
    assert_eq!(buffer.offset_at_position(1, 2), Some(11));
    assert_eq!(buffer.offset_at_position(1, 3), Some(12));
    assert_eq!(buffer.offset_at_position(1, 4), None);
    assert_eq!(buffer.offset_at_position(2, 0), None);
    assert_eq!(buffer.position_at_offset(5), Some((0, 4)));
    assert_eq!(buffer.position_at_offset(11), Some((1, 2)));
    assert_eq!(buffer.position_at_offset(12), Some((1, 3)));
    assert_eq!(buffer.position_at_offset(13), None);
}
