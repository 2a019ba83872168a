//! Pieces: descriptors of a run of bytes in one of the stores.

use crate::buffer::Buffer;
use crate::text::is_boundary;
use vstd::prelude::*;
use vstd::std_specs::cmp::PartialEqSpecImpl;

verus! {

/// The set of stores that a piece refers to.
#[derive(Debug, Clone, Copy, PartialEq, Eq, Structural)]
pub enum PieceType {
    /// The stores that were filled when the document was loaded.
    Original,
    /// The stores that take the text of later insertions.
    Added,
}

/// A run of bytes of one store, with the number of line breaks in it.
#[derive(Debug, Clone, Copy)]
pub struct Piece {
    /// The set of stores that holds the run.
    pub piece_type: PieceType,
    /// The index of the store in that set.
    pub buffer_index: usize,
    /// The byte offset in the store at which the run begins.
    pub start: usize,
    /// The length of the run in bytes.
    pub length: usize,
    /// The number of line breaks in the run.
    pub line_break_count: usize,
}

impl Piece {
    /// True when the run lies inside `store` and between scalar values.
    pub open spec fn fits(&self, store: Seq<u8>) -> bool {
        &&& self.start + self.length <= store.len()
        &&& is_boundary(store, self.start as int)
        &&& is_boundary(store, self.start + self.length)
    }

    /// The bytes of the run in `store`.
    pub open spec fn bytes_in(&self, store: Seq<u8>) -> Seq<u8> {
        store.subrange(self.start as int, self.start + self.length)
    }

    /// Creates a piece.
    pub fn new(
        piece_type: PieceType,
        buffer_index: usize,
        start: usize,
        length: usize,
        line_break_count: usize,
    ) -> (result: Self)
        ensures
            result == (Piece { piece_type, buffer_index, start, length, line_break_count }),
    {
        Self { piece_type, buffer_index, start, length, line_break_count }
    }

    /// Creates a piece of an original store.
    pub fn original(
        buffer_index: usize,
        start: usize,
        length: usize,
        line_break_count: usize,
    ) -> (result: Self)
        ensures
            result == (Piece {
                piece_type: PieceType::Original,
                buffer_index,
                start,
                length,
                line_break_count,
            }),
    {
        Self::new(PieceType::Original, buffer_index, start, length, line_break_count)
    }

    /// Creates a piece of an added store.
    pub fn added(
        buffer_index: usize,
        start: usize,
        length: usize,
        line_break_count: usize,
    ) -> (result: Self)
        ensures
            result == (Piece {
                piece_type: PieceType::Added,
                buffer_index,
                start,
                length,
                line_break_count,
            }),
    {
        Self::new(PieceType::Added, buffer_index, start, length, line_break_count)
    }

    /// The byte offset in the store at which the run ends.
    pub fn end(&self) -> (result: usize)
        requires
            self.start + self.length <= usize::MAX,
        ensures
            result == self.start + self.length,
    {
        self.start + self.length
    }

    /// True when the run is empty.
    pub fn is_empty(&self) -> (result: bool)
        ensures
            result == (self.length == 0),
    {
        self.length == 0
    }

    /// Splits the run at `offset` bytes from its start. The first part has
    /// `left_line_breaks` line breaks, the second part has the others.
    pub fn split_at(&self, offset: usize, left_line_breaks: usize) -> (result: (Piece, Piece))
        requires
            offset <= self.length,
            left_line_breaks <= self.line_break_count,
            self.start + self.length <= usize::MAX,
        ensures
            result.0 == (Piece { length: offset, line_break_count: left_line_breaks, ..*self }),
            result.1 == (Piece {
                start: (self.start + offset) as usize,
                length: (self.length - offset) as usize,
                line_break_count: (self.line_break_count - left_line_breaks) as usize,
                ..*self
            }),
    {
        let left = Piece::new(
            self.piece_type,
            self.buffer_index,
            self.start,
            offset,
            left_line_breaks,
        );
        let right = Piece::new(
            self.piece_type,
            self.buffer_index,
            self.start + offset,
            self.length - offset,
            self.line_break_count - left_line_breaks,
        );
        (left, right)
    }

    /// The part of the run that begins `start` bytes from its start and is
    /// `length` bytes long, with `line_break_count` line breaks.
    pub fn sub_piece(&self, start: usize, length: usize, line_break_count: usize) -> (result: Piece)
        requires
            start + length <= self.length,
            self.start + self.length <= usize::MAX,
        ensures
            result == (Piece {
                start: (self.start + start) as usize,
                length,
                line_break_count,
                ..*self
            }),
    {
        Piece::new(self.piece_type, self.buffer_index, self.start + start, length, line_break_count)
    }
}

/// Two pieces are equal when they name the same run: the number of line
/// breaks is not compared.
impl PartialEq for Piece {
    fn eq(&self, other: &Self) -> (result: bool) {
        self.piece_type == other.piece_type && self.buffer_index == other.buffer_index
            && self.start == other.start && self.length == other.length
    }
}

impl Eq for Piece {

}

impl PartialEqSpecImpl for Piece {
    open spec fn obeys_eq_spec() -> bool {
        true
    }

    open spec fn eq_spec(&self, other: &Self) -> bool {
        self.piece_type == other.piece_type && self.buffer_index == other.buffer_index
            && self.start == other.start && self.length == other.length
    }
}

/// A place inside a piece.
#[derive(Debug, Clone, Copy, PartialEq, Eq, Structural)]
pub struct PiecePosition {
    /// The line inside the piece, 0-indexed.
    pub line: usize,
    /// The byte offset from the start of that line.
    pub offset: usize,
}

impl PiecePosition {
    /// The place `offset` bytes behind the start of `line`.
    pub fn new(line: usize, offset: usize) -> (result: Self)
        ensures
            result.line == line,
            result.offset == offset,
    {
        Self { line, offset }
    }
}

/// The bytes of the store that `piece` names, where there is such a store.
pub open spec fn piece_store(piece: Piece, original: Seq<Buffer>, added: Seq<Buffer>) -> Option<
    Seq<u8>,
> {
    let stores = match piece.piece_type {
        PieceType::Original => original,
        PieceType::Added => added,
    };
    if piece.buffer_index < stores.len() {
        Some(stores[piece.buffer_index as int]@)
    } else {
        None
    }
}

/// True when `piece` names a store and its run fits that store.
pub open spec fn piece_resolves(piece: Piece, original: Seq<Buffer>, added: Seq<Buffer>) -> bool {
    match piece_store(piece, original, added) {
        Some(store) => piece.fits(store),
        None => false,
    }
}

/// The bytes of `piece` in the store that it names.
pub open spec fn piece_bytes(piece: Piece, original: Seq<Buffer>, added: Seq<Buffer>) -> Seq<u8>
    recommends
        piece_resolves(piece, original, added),
{
    match piece_store(piece, original, added) {
        Some(store) => piece.bytes_in(store),
        None => Seq::empty(),
    }
}

} // verus!
