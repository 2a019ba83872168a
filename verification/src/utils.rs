//! Helpers that read the content of pieces out of the stores.

use crate::buffer::Buffer;
use crate::piece::{Piece, piece_bytes, piece_resolves, PieceType};
use crate::text::{
    at_boundary, column_of, count_chars_in, count_line_breaks_in, find_line_begin, find_line_end,
    find_line_start, is_offset_of, lemma_line_bounds, lemma_line_end_found, lemma_offset_in_line,
    lemma_position_offset, line_break_count, line_of, offset_of_column, position_exists,
    position_offset,
};
use vstd::prelude::*;
use vstd::string::*;
use vstd::utf8::*;

verus! {

/// Counts the line breaks of `text`.
pub fn count_line_breaks(text: &str) -> (result: usize)
    ensures
        result == line_break_count(encode_utf8(text@)),
{
    let bytes = text.as_bytes();
    proof {
        assert(bytes@.subrange(0, bytes@.len() as int) =~= bytes@);
    }
    count_line_breaks_in(bytes, 0, bytes.len())
}

/// The text of `piece`: the run that it names in one of the stores. There
/// is none when the piece names no store, when its run does not lie inside
/// the store, or when it splits a scalar value.
pub fn get_piece_content<'a>(
    piece: &Piece,
    original_buffers: &'a [Buffer],
    added_buffers: &'a [Buffer],
) -> (result: Option<&'a str>)
    ensures
        result is Some <==> piece_resolves(*piece, original_buffers@, added_buffers@),
        result is Some ==> encode_utf8(result.unwrap()@) == piece_bytes(
            *piece,
            original_buffers@,
            added_buffers@,
        ),
{
    let buffers = match piece.piece_type {
        PieceType::Original => original_buffers,
        PieceType::Added => added_buffers,
    };
    if piece.buffer_index >= buffers.len() {
        return None;
    }
    let buffer = &buffers[piece.buffer_index];
    let len = buffer.len();
    if piece.start > len || piece.length > len - piece.start {
        return None;
    }
    let end = piece.start + piece.length;
    let bytes = buffer.content.as_str().as_bytes();
    if at_boundary(bytes, piece.start) && at_boundary(bytes, end) {
        Some(buffer.slice(piece.start, end))
    } else {
        None
    }
}

/// The line and column, counted inside `piece`, of the place `offset` bytes
/// from its start.
pub fn position_in_piece(
    piece: &Piece,
    offset: usize,
    original_buffers: &[Buffer],
    added_buffers: &[Buffer],
) -> (result: Option<(usize, usize)>)
    ensures
        result is Some <==> offset <= piece.length && piece_resolves(
            *piece,
            original_buffers@,
            added_buffers@,
        ),
        result is Some ==> result.unwrap().0 == line_of(
            piece_bytes(*piece, original_buffers@, added_buffers@),
            offset as int,
        ),
        result is Some ==> result.unwrap().1 == column_of(
            piece_bytes(*piece, original_buffers@, added_buffers@),
            offset as int,
        ),
{
    if offset > piece.length {
        return None;
    }
    let content = match get_piece_content(piece, original_buffers, added_buffers) {
        Some(content) => content,
        None => {
            return None;
        },
    };
    let bytes = content.as_bytes();
    proof {
        assert(bytes@.subrange(0, offset as int) =~= bytes@.take(offset as int));
    }
    let line = count_line_breaks_in(bytes, 0, offset);
    let begin = find_line_begin(bytes, offset);
    let column = count_chars_in(bytes, begin, offset);
    Some((line, column))
}

/// The byte offset from the start of `piece` of the place that `line` and
/// `column`, counted inside the piece, name, where there is one.
pub fn offset_in_piece(
    piece: &Piece,
    line: usize,
    column: usize,
    original_buffers: &[Buffer],
    added_buffers: &[Buffer],
) -> (result: Option<usize>)
    ensures
        result is Some <==> piece_resolves(*piece, original_buffers@, added_buffers@)
            && position_exists(
            piece_bytes(*piece, original_buffers@, added_buffers@),
            line as int,
            column as int,
        ),
        result is Some ==> is_offset_of(
            piece_bytes(*piece, original_buffers@, added_buffers@),
            result.unwrap() as int,
            line as int,
            column as int,
        ),
        result is Some ==> result.unwrap() == position_offset(
            piece_bytes(*piece, original_buffers@, added_buffers@),
            line as int,
            column as int,
        ),
{
    let content = match get_piece_content(piece, original_buffers, added_buffers) {
        Some(content) => content,
        None => {
            return None;
        },
    };
    let bytes = content.as_bytes();
    let start = match find_line_start(bytes, line) {
        Some(start) => start,
        None => {
            return None;
        },
    };
    proof {
        lemma_line_bounds(bytes@, line as int);
    }
    let end = find_line_end(bytes, start);
    proof {
        lemma_line_end_found(bytes@, line as int, end as int);
    }
    match offset_of_column(bytes, start, end, column) {
        Some(offset) => {
            proof {
                lemma_offset_in_line(bytes@, line as int, offset as int);
                lemma_position_offset(bytes@, offset as int, line as int, column as int);
            }
            Some(offset)
        },
        None => None,
    }
}

} // verus!
