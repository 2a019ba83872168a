use text_buffer::{Position, Range, TextBufferError};

#[test]
fn test_position_creation() {
    let pos = Position::new(5, 10);
    assert_eq!(pos.line, 5);
    assert_eq!(pos.column, 10);
}

#[test]
fn test_range_creation() {
    let start = Position::new(1, 0);
    let end = Position::new(2, 5);
    let range = Range::new(start, end);
    assert_eq!(range.start, start);
    assert_eq!(range.end, end);
}

#[test]
fn errors_compare() {
    assert_eq!(TextBufferError::InvalidRange, TextBufferError::InvalidRange);
    assert_ne!(TextBufferError::LineOutOfBounds, TextBufferError::PositionOutOfBounds);
    assert_ne!(TextBufferError::OffsetOutOfBounds, TextBufferError::PieceResolutionFailure);
}

#[test]
fn errors_say_what_went_wrong() {
    assert_eq!(TextBufferError::LineOutOfBounds.message(), "Line out of bounds");
    assert_eq!(TextBufferError::PositionOutOfBounds.message(), "Position out of bounds");
    assert_eq!(TextBufferError::OffsetOutOfBounds.message(), "Offset out of bounds");
    assert_eq!(TextBufferError::InvalidRange.message(), "Invalid range");
    assert_eq!(
        TextBufferError::PieceResolutionFailure.message(),
        "Failed to get piece content"
    );
}
