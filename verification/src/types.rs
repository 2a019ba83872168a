//! Positions, ranges and errors shared by the whole library.

use vstd::prelude::*;
use vstd::string::*;

verus! {

/// A place in a document: a 0-indexed line, and a 0-indexed column that
/// counts Unicode scalar values from the start of that line.
#[derive(Debug, Clone, Copy, PartialEq, Eq, Structural)]
pub struct Position {
    /// The line, counted from 0.
    pub line: usize,
    /// The number of scalar values between the start of the line and the
    /// place.
    pub column: usize,
}

impl Position {
    /// The place at `column` of `line`.
    pub fn new(line: usize, column: usize) -> (result: Self)
        ensures
            result.line == line,
            result.column == column,
    {
        Self { line, column }
    }
}

/// A half-open range of a document, from `start` up to but excluding `end`.
#[derive(Debug, Clone, Copy, PartialEq, Eq, Structural)]
pub struct Range {
    /// The place at which the range begins.
    pub start: Position,
    /// The place in front of which the range ends.
    pub end: Position,
}

impl Range {
    /// The range from `start` up to `end`.
    pub fn new(start: Position, end: Position) -> (result: Self)
        ensures
            result.start == start,
            result.end == end,
    {
        Self { start, end }
    }
}

/// The ways in which a query or an edit can fail.
#[derive(Debug, Clone, Copy, PartialEq, Eq, Structural)]
pub enum TextBufferError {
    /// The requested line is not a line of the document.
    LineOutOfBounds,
    /// The requested line and column name no place in the document.
    PositionOutOfBounds,
    /// The requested byte offset names no place in the document.
    OffsetOutOfBounds,
    /// The end of the range does not lie after its start.
    InvalidRange,
    /// A piece of the index has no content in the store it names.
    PieceResolutionFailure,
}

impl TextBufferError {
    /// The words that `message` gives for the error.
    pub open spec fn message_text(&self) -> Seq<char> {
        match self {
            TextBufferError::LineOutOfBounds => "Line out of bounds"@,
            TextBufferError::PositionOutOfBounds => "Position out of bounds"@,
            TextBufferError::OffsetOutOfBounds => "Offset out of bounds"@,
            TextBufferError::InvalidRange => "Invalid range"@,
            TextBufferError::PieceResolutionFailure => "Failed to get piece content"@,
        }
    }

    /// A few words that say what went wrong.
    pub fn message(&self) -> (result: String)
        ensures
            result@ == self.message_text(),
    {
        match self {
            TextBufferError::LineOutOfBounds => "Line out of bounds".to_owned(),
            TextBufferError::PositionOutOfBounds => "Position out of bounds".to_owned(),
            TextBufferError::OffsetOutOfBounds => "Offset out of bounds".to_owned(),
            TextBufferError::InvalidRange => "Invalid range".to_owned(),
            TextBufferError::PieceResolutionFailure => "Failed to get piece content".to_owned(),
        }
    }
}

/// The result of a text buffer operation.
pub type TextBufferResult<T> = Result<T, TextBufferError>;

} // verus!
