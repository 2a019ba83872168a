//! The text buffer: the stores, and the index tree whose pieces, read in
//! document order, make up the document.

use crate::buffer::Buffer;
use crate::document::{
    document, joined_piece, joins_at, lemma_document_concat, lemma_document_frame,
    lemma_document_insert, lemma_document_piece, lemma_document_remove, lemma_document_same_stores,
    lemma_document_single, lemma_document_split, lemma_document_totals, lemma_document_update,
    lemma_joined_piece, lemma_part_of_piece, lemma_piece_bytes, lemma_piece_of_appended,
    lemma_split_piece, lemma_stores_grow_last, lemma_stores_grow_same, piece_ok, pieces_ok,
    stores_grow,
};
use crate::piece::{Piece, piece_bytes, piece_resolves, PieceType};
use crate::red_black_tree::{
    black_height, height, index_at_line_break, index_at_offset, insertion_index, is_location,
    lemma_index_at_line_break, lemma_index_at_offset, lemma_insertion_index_is,
    lemma_remove_at_start, lemma_total_insert, lemma_total_take, lemma_total_update,
    piece_starts_at, PieceLocation, RBTree, total_length, total_line_breaks,
};
use crate::text::{
    at_boundary, char_count, column_of, count_chars_in, count_line_breaks_in, find_line_start,
    is_boundary, is_offset_of, lemma_boundary_behind_valid, lemma_encode_concat, lemma_line_bounds,
    lemma_line_break_count_bound, lemma_line_break_count_concat, lemma_line_break_count_split,
    lemma_line_of, lemma_line_start_in_part, lemma_line_starts, lemma_offset_in_line,
    lemma_position_offset, lemma_three_parts, lemma_valid_utf8_first_byte, line_break_count,
    line_bytes, line_count, line_end, line_of, line_start, offset_of_column, position_exists,
    position_offset,
};
use crate::laws::{lemma_char_count_is_length, lemma_line_breaks_are_newlines, newline_count};
use crate::types::{Position, Range, TextBufferError, TextBufferResult};
use crate::utils;
use vstd::arithmetic::power2::pow2;
use vstd::prelude::*;
use vstd::string::*;
use vstd::utf8::*;

verus! {

/// True when every store of `stores` records its line starts rightly.
pub open spec fn stores_wf(stores: Seq<Buffer>) -> bool {
    forall|i: int| 0 <= i < stores.len() ==> (#[trigger] stores[i]).wf()
}

/// The byte offsets of the start and the end of `range` in `s`, or the
/// error that tells why the range cannot be used: one of its ends names no
/// place, or its end does not lie behind its start.
pub open spec fn range_offsets(s: Seq<u8>, range: Range) -> Result<(int, int), TextBufferError> {
    let start = position_offset(s, range.start.line as int, range.start.column as int);
    let end = position_offset(s, range.end.line as int, range.end.column as int);
    if !position_exists(s, range.start.line as int, range.start.column as int) {
        Err(TextBufferError::PositionOutOfBounds)
    } else if !position_exists(s, range.end.line as int, range.end.column as int) {
        Err(TextBufferError::PositionOutOfBounds)
    } else if start >= end {
        Err(TextBufferError::InvalidRange)
    } else {
        Ok((start, end))
    }
}

/// Collects the chunks of a document and builds a text buffer from them.
#[derive(Debug)]
pub struct TextBufferBuilder {
    /// The stores that take the chunks.
    original_buffers: Vec<Buffer>,
    /// The stores that will take the text of later insertions.
    added_buffers: Vec<Buffer>,
    /// One piece for each chunk, in the order in which they came.
    pieces: Vec<Piece>,
}

impl View for TextBufferBuilder {
    type V = Seq<u8>;

    /// The UTF-8 bytes of the chunks taken so far, one after the other.
    closed spec fn view(&self) -> Seq<u8> {
        document(self.pieces@, self.original_buffers@, self.added_buffers@)
    }
}

impl TextBufferBuilder {
    /// True when the pieces are in order in the stores, the stores record
    /// their line starts rightly, and the document is shorter than
    /// `usize::MAX` bytes.
    pub closed spec fn wf(&self) -> bool {
        &&& pieces_ok(self.pieces@, self.original_buffers@, self.added_buffers@)
        &&& stores_wf(self.original_buffers@)
        &&& stores_wf(self.added_buffers@)
        &&& self.added_buffers@.len() >= 1
        &&& self@.len() < usize::MAX
    }

    /// The pieces recorded so far: one for each chunk that was not empty,
    /// in the order in which the chunks came.
    pub closed spec fn pieces(&self) -> Seq<Piece> {
        self.pieces@
    }

    /// The stores that take the chunks.
    pub closed spec fn original_stores(&self) -> Seq<Buffer> {
        self.original_buffers@
    }

    /// The stores that will take the text of later insertions.
    pub closed spec fn added_stores(&self) -> Seq<Buffer> {
        self.added_buffers@
    }

    /// Creates a builder that has taken no chunk.
    pub fn new() -> (result: Self)
        ensures
            result.wf(),
            result@ == Seq::<u8>::empty(),
            result.pieces() == Seq::<Piece>::empty(),
    {
        let mut added_buffers: Vec<Buffer> = Vec::new();
        added_buffers.push(Buffer::new());
        Self { original_buffers: Vec::new(), added_buffers, pieces: Vec::new() }
    }

    /// Takes `text` as the next chunk of the document: appends it to the
    /// last original store and records a piece for it. An empty chunk
    /// changes nothing.
    pub fn accept_chunk(&mut self, text: &str) -> (result: &mut Self)
        requires
            old(self).wf(),
            old(self)@.len() + encode_utf8(text@).len() < usize::MAX,
        ensures
            result.wf(),
            result@ == old(self)@ + encode_utf8(text@),
            *final(self) == *final(result),
            text@.len() == 0 ==> *result == *old(self),
            text@.len() > 0 ==> result.pieces().len() == old(self).pieces().len() + 1
                && result.pieces().drop_last() == old(self).pieces() && piece_bytes(
                result.pieces().last(),
                result.original_stores(),
                result.added_stores(),
            ) == encode_utf8(text@),
            stores_grow(old(self).original_stores(), result.original_stores()),
            result.added_stores() == old(self).added_stores(),
    {
        let bytes = text.as_bytes();
        let length = bytes.len();
        proof {
            lemma_stores_grow_same(self.original_buffers@);
            if text@.len() > 0 {
                encode_utf8_first_scalar(text@);
            }
        }
        if length == 0 {
            proof {
                assert(old(self)@ + encode_utf8(text@) =~= old(self)@);
            }
            return self;
        }
        let line_breaks = utils::count_line_breaks(text);
        let ghost old_original = self.original_buffers@;
        let ghost old_pieces = self.pieces@;
        let buffer = match self.original_buffers.pop() {
            Some(mut buffer) => {
                buffer.append(text);
                buffer
            },
            None => Buffer::from_text(text),
        };
        let ghost before: Seq<u8> = if old_original.len() > 0 {
            old_original.last()@
        } else {
            Seq::empty()
        };
        let start_offset = buffer.len() - length;
        let piece = Piece::original(self.original_buffers.len(), start_offset, length, line_breaks);
        self.original_buffers.push(buffer);
        self.pieces.push(piece);
        proof {
            let original = self.original_buffers@;
            let added = self.added_buffers@;
            assert(original.last()@ =~= before + encode_utf8(text@));
            assert(original.last()@.take(before.len() as int) =~= before);
            lemma_stores_grow_last(old_original, original);
            lemma_stores_grow_same(added);
            lemma_document_frame(old_pieces, old_original, added, original, added);
            lemma_piece_of_appended(piece, original, added, before, text@);
            assert(self.pieces@ =~= old_pieces + seq![piece]);
            assert(self.pieces@.drop_last() =~= old_pieces);
            lemma_document_concat(old_pieces, seq![piece], original, added);
            lemma_document_single(piece, original, added);
            assert forall|i: int| 0 <= i < self.pieces@.len() implies piece_ok(
                #[trigger] self.pieces@[i],
                original,
                added,
            ) by {
                if i < old_pieces.len() {
                    assert(self.pieces@[i] == old_pieces[i]);
                }
            }
            assert forall|i: int| 0 <= i < original.len() implies (#[trigger] original[i]).wf() by {
                if i < original.len() - 1 {
                    assert(original[i] == old_original[i]);
                }
            }
        }
        self
    }

    /// Builds the text buffer of the chunks taken so far. Without any
    /// chunk the document is empty and has one line.
    pub fn build(self) -> (result: TextBuffer)
        requires
            self.wf(),
        ensures
            result.wf(),
            result@ == self@,
            result.pieces() == self.pieces(),
            result.added_stores() == self.added_stores(),
            self.original_stores().len() > 0 ==> result.original_stores()
                == self.original_stores(),
    {
        let mut tree = RBTree::new();
        let mut i: usize = 0;
        proof {
            lemma_document_totals(self.pieces@, self.original_buffers@, self.added_buffers@);
            lemma_line_break_count_bound(self@);
            assert(self.pieces@.take(0) =~= Seq::<Piece>::empty());
        }
        while i < self.pieces.len()
            invariant
                0 <= i <= self.pieces@.len(),
                tree.wf(),
                tree@ == self.pieces@.take(i as int),
                self.pieces@.len() <= total_length(self.pieces@) < usize::MAX,
                total_line_breaks(self.pieces@) < usize::MAX,
            decreases self.pieces@.len() - i,
        {
            proof {
                lemma_total_take(self.pieces@, i + 1);
                assert(self.pieces@.take(i + 1) =~= self.pieces@.take(i as int).push(
                    self.pieces@[i as int],
                ));
                assert(self.pieces@.take(i + 1).drop_last() =~= self.pieces@.take(i as int));
            }
            tree.insert(self.pieces[i]);
            i = i + 1;
        }
        proof {
            assert(self.pieces@.take(i as int) =~= self.pieces@);
        }
        let mut original_buffers = self.original_buffers;
        if original_buffers.len() == 0 {
            original_buffers.push(Buffer::new());
            proof {
                assert(stores_grow(self.original_buffers@, original_buffers@));
                lemma_stores_grow_same(self.added_buffers@);
                lemma_document_frame(
                    self.pieces@,
                    self.original_buffers@,
                    self.added_buffers@,
                    original_buffers@,
                    self.added_buffers@,
                );
            }
        }
        let buffer = TextBuffer { original_buffers, added_buffers: self.added_buffers, tree };
        proof {
            buffer.lemma_parts();
        }
        buffer
    }
}

impl Default for TextBufferBuilder {
    /// A builder that has taken no chunk.
    fn default() -> (result: Self)
        ensures
            result.wf(),
            result@ == Seq::<u8>::empty(),
    {
        Self::new()
    }
}

/// An editable text: a document of UTF-8 bytes, cut into lines at its line
/// breaks, that answers queries by line and column and by byte offset.
#[derive(Debug)]
pub struct TextBuffer {
    /// The stores that were filled when the document was built.
    original_buffers: Vec<Buffer>,
    /// The stores that take the text of insertions.
    added_buffers: Vec<Buffer>,
    /// The pieces of the document, in document order.
    tree: RBTree,
}

impl View for TextBuffer {
    type V = Seq<u8>;

    /// The UTF-8 bytes of the document.
    closed spec fn view(&self) -> Seq<u8> {
        document(self.tree@, self.original_buffers@, self.added_buffers@)
    }
}

impl TextBuffer {
    /// True when the index tree is a red-black tree with exact cached
    /// totals, its pieces are in order in the stores, the stores record
    /// their line starts rightly, and the document is shorter than
    /// `usize::MAX` bytes.
    #[verifier::opaque]
    pub closed spec fn wf(&self) -> bool {
        &&& self.tree.wf()
        &&& pieces_ok(self.tree@, self.original_buffers@, self.added_buffers@)
        &&& stores_wf(self.original_buffers@)
        &&& stores_wf(self.added_buffers@)
        &&& self.added_buffers@.len() >= 1
        &&& self@.len() < usize::MAX
    }

    /// The document as text: the scalar values that its bytes encode.
    pub open spec fn text(&self) -> Seq<char> {
        decode_utf8(self@)
    }

    /// The pieces of the document, in document order.
    pub closed spec fn pieces(&self) -> Seq<Piece> {
        self.tree@
    }

    /// The index tree that holds the pieces.
    pub closed spec fn index(&self) -> RBTree {
        self.tree
    }

    /// The stores that were filled when the document was built.
    pub closed spec fn original_stores(&self) -> Seq<Buffer> {
        self.original_buffers@
    }

    /// The stores that take the text of insertions.
    pub closed spec fn added_stores(&self) -> Seq<Buffer> {
        self.added_buffers@
    }

    /// What holds of every buffer that is in order: the index tree is a
    /// red-black tree with exact cached totals; each piece is not empty,
    /// lies in its store between scalar values and counts its line breaks
    /// rightly; the document is the bytes of the pieces, one after the
    /// other; the totals of the tree are its length and its line breaks;
    /// and the tree is shallow, so that a descent in a document of `n`
    /// pieces takes at most `2 * log2(n + 1)` steps.
    pub proof fn lemma_invariants(&self)
        requires
            self.wf(),
        ensures
            self.index().wf(),
            self.index()@ == self.pieces(),
            pieces_ok(self.pieces(), self.original_stores(), self.added_stores()),
            self@ == document(self.pieces(), self.original_stores(), self.added_stores()),
            self@.len() == total_length(self.pieces()),
            line_count(self@) == total_line_breaks(self.pieces()) + 1,
            height(self.index().root) <= 2 * black_height(self.index().root),
            pow2(black_height(self.index().root)) <= self.pieces().len() + 1,
    {
        reveal(TextBuffer::wf);
        self.lemma_tree();
        self.tree.lemma_shallow();
    }

    /// What holds of every buffer that is in order: its document is valid
    /// UTF-8 and shorter than `usize::MAX` bytes.
    pub proof fn lemma_wf(&self)
        requires
            self.wf(),
        ensures
            valid_utf8(self@),
            self@.len() < usize::MAX,
            encode_utf8(self.text()) == self@,
    {
        self.lemma_tree();
        decode_utf8_encode_utf8(self@);
    }

    /// What a buffer that is in order knows of its index tree: the tree is
    /// in order, and its totals are those of the document.
    proof fn lemma_tree(&self)
        requires
            self.wf(),
        ensures
            self.tree.wf(),
            total_length(self.tree@) == self@.len(),
            total_line_breaks(self.tree@) == line_break_count(self@),
            line_break_count(self@) <= self@.len() < usize::MAX,
            self.tree@.len() <= self@.len(),
            valid_utf8(self@),
            self.added_buffers@.len() >= 1,
    {
        reveal(TextBuffer::wf);
        lemma_document_totals(self.tree@, self.original_buffers@, self.added_buffers@);
        lemma_line_break_count_bound(self@);
    }

    /// What makes a buffer one that is in order.
    proof fn lemma_parts(&self)
        ensures
            self.wf() <==> {
                &&& self.tree.wf()
                &&& pieces_ok(self.tree@, self.original_buffers@, self.added_buffers@)
                &&& stores_wf(self.original_buffers@)
                &&& stores_wf(self.added_buffers@)
                &&& self.added_buffers@.len() >= 1
                &&& self@.len() < usize::MAX
            },
    {
        reveal(TextBuffer::wf);
    }

    /// Creates an empty text buffer.
    pub fn new() -> (result: Self)
        ensures
            result.wf(),
            result@ == Seq::<u8>::empty(),
    {
        let mut original_buffers: Vec<Buffer> = Vec::new();
        original_buffers.push(Buffer::new());
        let mut added_buffers: Vec<Buffer> = Vec::new();
        added_buffers.push(Buffer::new());
        let buffer = Self { original_buffers, added_buffers, tree: RBTree::new() };
        proof {
            buffer.lemma_parts();
        }
        buffer
    }

    /// Creates a text buffer that holds `text`.
    pub fn from_text(text: &str) -> (result: Self)
        requires
            encode_utf8(text@).len() < usize::MAX,
        ensures
            result.wf(),
            result@ == encode_utf8(text@),
    {
        let mut builder = TextBufferBuilder::new();
        builder.accept_chunk(text);
        proof {
            assert(Seq::<u8>::empty() + encode_utf8(text@) =~= encode_utf8(text@));
        }
        builder.build()
    }

    /// The number of lines: one more than the line breaks of the document.
    pub fn line_count(&self) -> (result: usize)
        requires
            self.wf(),
        ensures
            result == line_count(self@),
            result == newline_count(self.text()) + 1,
            result >= 1,
    {
        proof {
            self.lemma_tree();
            decode_utf8_encode_utf8(self@);
            lemma_line_breaks_are_newlines(self.text());
        }
        self.tree.total_line_breaks() + 1
    }

    /// The length of the document in bytes.
    pub fn length(&self) -> (result: usize)
        requires
            self.wf(),
        ensures
            result == self@.len(),
    {
        proof {
            self.lemma_tree();
        }
        self.tree.total_length()
    }

    /// True when the document is empty.
    pub fn is_empty(&self) -> (result: bool)
        requires
            self.wf(),
        ensures
            result == (self@.len() == 0),
    {
        self.length() == 0
    }

    /// The number of pieces that the document is cut into.
    pub fn piece_count(&self) -> (result: usize)
        requires
            self.wf(),
        ensures
            result == self.pieces().len(),
    {
        proof {
            self.lemma_tree();
        }
        self.tree.len()
    }

    /// Where a located piece lies in the document.
    proof fn lemma_located(&self, index: int, location: PieceLocation)
        requires
            self.wf(),
            is_location(self.tree@, index, location),
        ensures
            piece_ok(location.piece, self.original_buffers@, self.added_buffers@),
            0 <= location.start < location.start + location.piece.length <= self@.len(),
            self@.subrange(location.start as int, location.start + location.piece.length)
                == piece_bytes(location.piece, self.original_buffers@, self.added_buffers@),
            line_break_count(self@.take(location.start as int)) == location.line_breaks_before,
            location.piece.start + location.piece.length <= usize::MAX,
    {
        reveal(TextBuffer::wf);
        lemma_document_piece(self.tree@, index, self.original_buffers@, self.added_buffers@);
        self.lemma_piece_in_store(location.piece);
    }

    /// A piece that is in order ends inside its store, whose length is a
    /// `usize`.
    proof fn lemma_piece_in_store(&self, piece: Piece)
        requires
            self.wf(),
            piece_ok(piece, self.original_buffers@, self.added_buffers@),
        ensures
            piece.start + piece.length <= usize::MAX,
            piece.line_break_count <= piece.length,
    {
        reveal(TextBuffer::wf);
        lemma_piece_bytes(piece, self.original_buffers@, self.added_buffers@);
        lemma_line_break_count_bound(
            piece_bytes(piece, self.original_buffers@, self.added_buffers@),
        );
        match piece.piece_type {
            PieceType::Original => {
                assert(self.original_buffers@[piece.buffer_index as int].wf());
            },
            PieceType::Added => {
                assert(self.added_buffers@[piece.buffer_index as int].wf());
            },
        }
    }

    /// The text of `piece` in the stores of this buffer.
    fn get_piece_content(&self, piece: &Piece) -> (result: Option<&str>)
        ensures
            result is Some <==> piece_resolves(
                *piece,
                self.original_buffers@,
                self.added_buffers@,
            ),
            result is Some ==> encode_utf8(result.unwrap()@) == piece_bytes(
                *piece,
                self.original_buffers@,
                self.added_buffers@,
            ),
    {
        utils::get_piece_content(
            piece,
            self.original_buffers.as_slice(),
            self.added_buffers.as_slice(),
        )
    }

    /// The text from the byte offset `current` up to the end of the piece
    /// that covers it, or up to `end` where that comes first, and the
    /// byte offset at which that text ends. Both offsets lie between
    /// scalar values.
    fn text_from(&self, current: usize, end: usize) -> (result: TextBufferResult<(&str, usize)>)
        requires
            self.wf(),
            current < end,
            is_boundary(self@, current as int),
            is_boundary(self@, end as int),
        ensures
            result is Ok,
            current < result.unwrap().1 <= end,
            encode_utf8(result.unwrap().0@) == self@.subrange(
                current as int,
                result.unwrap().1 as int,
            ),
    {
        proof {
            self.lemma_tree();
            lemma_index_at_offset(self.tree@, current as int);
        }
        let location = match self.tree.locate_offset(current) {
            Some(location) => location,
            None => {
                return Err(TextBufferError::PieceResolutionFailure);
            },
        };
        let piece = location.piece;
        proof {
            self.lemma_located(index_at_offset(self.tree@, current as int), location);
        }
        let from = current - location.start;
        let to = if end - location.start < piece.length {
            end - location.start
        } else {
            piece.length
        };
        let part = piece.sub_piece(from, to - from, 0);
        proof {
            let whole = self@.subrange(location.start as int, location.start + piece.length);
            assert(whole[from as int] == self@[current as int]);
            if to < piece.length {
                assert(whole[to as int] == self@[end as int]);
            }
            lemma_part_of_piece(
                piece,
                part,
                from as int,
                to as int,
                self.original_buffers@,
                self.added_buffers@,
            );
            assert(whole.subrange(from as int, to as int) =~= self@.subrange(
                current as int,
                location.start + to,
            ));
        }
        match self.get_piece_content(&part) {
            Some(text) => Ok((text, location.start + to)),
            None => Err(TextBufferError::PieceResolutionFailure),
        }
    }

    /// The text between the byte offsets `start` and `end`, which lie
    /// between scalar values.
    fn text_between(&self, start: usize, end: usize) -> (result: TextBufferResult<String>)
        requires
            self.wf(),
            start <= end,
            is_boundary(self@, start as int),
            is_boundary(self@, end as int),
        ensures
            result is Ok,
            encode_utf8(result.unwrap()@) == self@.subrange(start as int, end as int),
            result.unwrap()@ == decode_utf8(self@.subrange(start as int, end as int)),
    {
        let mut content = String::new();
        let mut current: usize = start;
        proof {
            assert(self@.subrange(start as int, start as int) =~= Seq::<u8>::empty());
        }
        while current < end
            invariant
                self.wf(),
                start <= current <= end <= self@.len(),
                is_boundary(self@, current as int) || current == end,
                is_boundary(self@, end as int),
                encode_utf8(content@) == self@.subrange(start as int, current as int),
            decreases end - current,
        {
            let (text, next) = match self.text_from(current, end) {
                Ok(found) => found,
                Err(error) => {
                    return Err(error);
                },
            };
            proof {
                lemma_encode_concat(content@, text@);
                assert(self@.subrange(start as int, current as int) + self@.subrange(
                    current as int,
                    next as int,
                ) =~= self@.subrange(start as int, next as int));
                assert(encode_utf8(text@).len() == next - current);
                if next < end {
                    encode_utf8_valid_utf8(text@);
                    self.lemma_wf();
                    lemma_boundary_behind_valid(self@, current as int, next as int);
                }
            }
            content.append(text);
            current = next;
        }
        proof {
            encode_utf8_decode_utf8(content@);
        }
        Ok(content)
    }

    /// The byte offset at which line `line` begins.
    fn line_start_offset(&self, line: usize) -> (result: TextBufferResult<usize>)
        requires
            self.wf(),
            line < line_count(self@),
        ensures
            result is Ok,
            result.unwrap() == line_start(self@, line as int),
    {
        if line == 0 {
            proof {
                lemma_line_starts(self@);
            }
            return Ok(0);
        }
        proof {
            self.lemma_tree();
            lemma_index_at_line_break(self.tree@, line - 1);
        }
        let location = match self.tree.locate_line_break(line - 1) {
            Some(location) => location,
            None => {
                return Err(TextBufferError::PieceResolutionFailure);
            },
        };
        proof {
            self.lemma_located(index_at_line_break(self.tree@, line - 1), location);
        }
        let text = match self.get_piece_content(&location.piece) {
            Some(text) => text,
            None => {
                return Err(TextBufferError::PieceResolutionFailure);
            },
        };
        let bytes = text.as_bytes();
        let inner = line - location.line_breaks_before;
        match find_line_start(bytes, inner) {
            Some(offset) => {
                proof {
                    let start = location.start as int;
                    let end = start + location.piece.length;
                    lemma_three_parts(self@, start, end);
                    lemma_line_bounds(bytes@, inner as int);
                    lemma_line_start_in_part(
                        self@.take(start),
                        bytes@,
                        self@.skip(end),
                        inner as int,
                    );
                }
                Ok(location.start + offset)
            },
            None => Err(TextBufferError::PieceResolutionFailure),
        }
    }

    /// The byte offset at which line `line` ends.
    fn line_end_offset(&self, line: usize) -> (result: TextBufferResult<usize>)
        requires
            self.wf(),
            line < line_count(self@),
        ensures
            result is Ok,
            result.unwrap() == line_end(self@, line as int),
    {
        proof {
            lemma_line_starts(self@);
        }
        let count = self.line_count();
        if line + 1 < count {
            proof {
                lemma_line_bounds(self@, line as int);
            }
            match self.line_start_offset(line + 1) {
                Ok(next) => Ok(next - 1),
                Err(error) => Err(error),
            }
        } else {
            Ok(self.length())
        }
    }

    /// The line in which the byte offset `offset` lies.
    fn line_of_offset(&self, offset: usize) -> (result: TextBufferResult<usize>)
        requires
            self.wf(),
            offset <= self@.len(),
        ensures
            result is Ok,
            result.unwrap() == line_of(self@, offset as int),
    {
        proof {
            self.lemma_tree();
            lemma_index_at_offset(self.tree@, offset as int);
        }
        let location = match self.tree.locate_offset(offset) {
            Some(location) => location,
            None => {
                proof {
                    assert(self@.take(offset as int) =~= self@);
                }
                return Ok(self.tree.total_line_breaks());
            },
        };
        proof {
            self.lemma_located(index_at_offset(self.tree@, offset as int), location);
        }
        let text = match self.get_piece_content(&location.piece) {
            Some(text) => text,
            None => {
                return Err(TextBufferError::PieceResolutionFailure);
            },
        };
        let bytes = text.as_bytes();
        let inner = count_line_breaks_in(bytes, 0, offset - location.start);
        proof {
            let start = location.start as int;
            assert(self@.take(offset as int) =~= self@.take(start) + bytes@.subrange(
                0,
                offset - start,
            ));
            lemma_line_break_count_concat(self@.take(start), bytes@.subrange(0, offset - start));
            lemma_line_break_count_split(self@, start, offset as int);
            lemma_line_break_count_bound(self@.take(offset as int));
        }
        Ok(location.line_breaks_before + inner)
    }

    /// True when `offset` lies between two scalar values of the document,
    /// or at one of its ends.
    fn is_boundary_offset(&self, offset: usize) -> (result: TextBufferResult<bool>)
        requires
            self.wf(),
        ensures
            result is Ok,
            result.unwrap() == is_boundary(self@, offset as int),
    {
        proof {
            self.lemma_tree();
            lemma_index_at_offset(self.tree@, offset as int);
        }
        let location = match self.tree.locate_offset(offset) {
            Some(location) => location,
            None => {
                return Ok(offset == self.tree.total_length());
            },
        };
        proof {
            self.lemma_located(index_at_offset(self.tree@, offset as int), location);
        }
        let text = match self.get_piece_content(&location.piece) {
            Some(text) => text,
            None => {
                return Err(TextBufferError::PieceResolutionFailure);
            },
        };
        let bytes = text.as_bytes();
        proof {
            assert(bytes@[offset - location.start] == self@[offset as int]);
        }
        Ok(at_boundary(bytes, offset - location.start))
    }

    /// The content of line `line`, without its line break. The error is
    /// `LineOutOfBounds` where the document has no such line.
    pub fn get_line_content(&self, line: usize) -> (result: TextBufferResult<String>)
        requires
            self.wf(),
        ensures
            result is Ok <==> line < line_count(self@),
            result is Ok ==> encode_utf8(result.unwrap()@) == line_bytes(self@, line as int),
            result is Ok ==> result.unwrap()@ == decode_utf8(line_bytes(self@, line as int)),
            result is Err ==> result == Err::<String, TextBufferError>(
                TextBufferError::LineOutOfBounds,
            ),
    {
        if line >= self.line_count() {
            return Err(TextBufferError::LineOutOfBounds);
        }
        proof {
            self.lemma_tree();
            lemma_line_bounds(self@, line as int);
        }
        let start = match self.line_start_offset(line) {
            Ok(start) => start,
            Err(error) => {
                return Err(error);
            },
        };
        let end = match self.line_end_offset(line) {
            Ok(end) => end,
            Err(error) => {
                return Err(error);
            },
        };
        self.text_between(start, end)
    }

    /// The number of scalar values of line `line`, without its line break.
    /// The error is `LineOutOfBounds` where the document has no such line.
    pub fn get_line_length(&self, line: usize) -> (result: TextBufferResult<usize>)
        requires
            self.wf(),
        ensures
            result is Ok <==> line < line_count(self@),
            result is Ok ==> result.unwrap() == char_count(line_bytes(self@, line as int)),
            result is Ok ==> result.unwrap() == decode_utf8(line_bytes(self@, line as int)).len(),
            result is Err ==> result == Err::<usize, TextBufferError>(
                TextBufferError::LineOutOfBounds,
            ),
    {
        let content = match self.get_line_content(line) {
            Ok(content) => content,
            Err(error) => {
                return Err(error);
            },
        };
        let bytes = content.as_str().as_bytes();
        proof {
            assert(bytes@.subrange(0, bytes@.len() as int) =~= bytes@);
            lemma_char_count_is_length(content@);
        }
        Ok(count_chars_in(bytes, 0, bytes.len()))
    }

    /// The whole document as one text.
    pub fn get_all_text(&self) -> (result: String)
        requires
            self.wf(),
        ensures
            encode_utf8(result@) == self@,
            result@ == self.text(),
    {
        proof {
            self.lemma_tree();
            if self@.len() > 0 {
                lemma_valid_utf8_first_byte(self@);
            }
            assert(self@.subrange(0, self@.len() as int) =~= self@);
        }
        match self.text_between(0, self.length()) {
            Ok(content) => {
                proof {
                    encode_utf8_decode_utf8(content@);
                }
                content
            },
            Err(_) => String::new(),
        }
    }

    /// The byte offset of the place that `position` names. The error is
    /// `PositionOutOfBounds` where the document has no such line, or the
    /// line has fewer scalar values than the column says.
    pub fn position_to_offset(&self, position: Position) -> (result: TextBufferResult<usize>)
        requires
            self.wf(),
        ensures
            result is Ok <==> position_exists(
                self@,
                position.line as int,
                position.column as int,
            ),
            result is Ok ==> is_offset_of(
                self@,
                result.unwrap() as int,
                position.line as int,
                position.column as int,
            ),
            result is Ok ==> result.unwrap() == position_offset(
                self@,
                position.line as int,
                position.column as int,
            ),
            result is Err ==> result == Err::<usize, TextBufferError>(
                TextBufferError::PositionOutOfBounds,
            ),
    {
        if position.line >= self.line_count() {
            return Err(TextBufferError::PositionOutOfBounds);
        }
        proof {
            self.lemma_tree();
            lemma_line_bounds(self@, position.line as int);
        }
        let start = match self.line_start_offset(position.line) {
            Ok(start) => start,
            Err(error) => {
                return Err(error);
            },
        };
        let end = match self.line_end_offset(position.line) {
            Ok(end) => end,
            Err(error) => {
                return Err(error);
            },
        };
        let content = match self.text_between(start, end) {
            Ok(content) => content,
            Err(error) => {
                return Err(error);
            },
        };
        let bytes = content.as_str().as_bytes();
        proof {
            assert(bytes@.subrange(0, bytes@.len() as int) =~= bytes@);
        }
        match offset_of_column(bytes, 0, bytes.len(), position.column) {
            Some(inner) => {
                let offset = start + inner;
                proof {
                    lemma_offset_in_line(self@, position.line as int, offset as int);
                    assert(bytes@.subrange(0, inner as int) =~= self@.subrange(
                        start as int,
                        offset as int,
                    ));
                    if inner < bytes@.len() {
                        assert(bytes@[inner as int] == self@[offset as int]);
                    }
                    lemma_position_offset(
                        self@,
                        offset as int,
                        position.line as int,
                        position.column as int,
                    );
                }
                Ok(offset)
            },
            None => Err(TextBufferError::PositionOutOfBounds),
        }
    }

    /// The line and column of the byte offset `offset`. The error is
    /// `OffsetOutOfBounds` where the offset lies behind the end of the
    /// document or inside the encoding of a scalar value.
    pub fn offset_to_position(&self, offset: usize) -> (result: TextBufferResult<Position>)
        requires
            self.wf(),
        ensures
            result is Ok <==> is_boundary(self@, offset as int),
            result is Ok ==> result.unwrap().line == line_of(self@, offset as int)
                && result.unwrap().column == column_of(self@, offset as int),
            result is Err ==> result == Err::<Position, TextBufferError>(
                TextBufferError::OffsetOutOfBounds,
            ),
    {
        let on_boundary = match self.is_boundary_offset(offset) {
            Ok(on_boundary) => on_boundary,
            Err(error) => {
                return Err(error);
            },
        };
        if !on_boundary {
            return Err(TextBufferError::OffsetOutOfBounds);
        }
        let line = match self.line_of_offset(offset) {
            Ok(line) => line,
            Err(error) => {
                return Err(error);
            },
        };
        proof {
            self.lemma_tree();
            lemma_line_of(self@, offset as int);
            lemma_line_bounds(self@, line as int);
        }
        let start = match self.line_start_offset(line) {
            Ok(start) => start,
            Err(error) => {
                return Err(error);
            },
        };
        let content = match self.text_between(start, offset) {
            Ok(content) => content,
            Err(error) => {
                return Err(error);
            },
        };
        let bytes = content.as_str().as_bytes();
        proof {
            assert(bytes@.subrange(0, bytes@.len() as int) =~= bytes@);
        }
        let column = count_chars_in(bytes, 0, bytes.len());
        Ok(Position::new(line, column))
    }

    /// The text between the places that `range` names. The error is
    /// `PositionOutOfBounds` where one of the two names no place, and
    /// `InvalidRange` where the end does not lie behind the start.
    pub fn get_text_in_range(&self, range: Range) -> (result: TextBufferResult<String>)
        requires
            self.wf(),
        ensures
            range_offsets(self@, range) is Err ==> result == Err::<String, TextBufferError>(
                range_offsets(self@, range)->Err_0,
            ),
            range_offsets(self@, range) is Ok ==> result is Ok && encode_utf8(result.unwrap()@)
                == self@.subrange(
                range_offsets(self@, range)->Ok_0.0,
                range_offsets(self@, range)->Ok_0.1,
            ) && result.unwrap()@ == decode_utf8(
                self@.subrange(
                    range_offsets(self@, range)->Ok_0.0,
                    range_offsets(self@, range)->Ok_0.1,
                ),
            ),
    {
        let start = match self.position_to_offset(range.start) {
            Ok(start) => start,
            Err(error) => {
                return Err(error);
            },
        };
        let end = match self.position_to_offset(range.end) {
            Ok(end) => end,
            Err(error) => {
                return Err(error);
            },
        };
        if start >= end {
            return Err(TextBufferError::InvalidRange);
        }
        self.text_between(start, end)
    }

    /// What cutting the piece at `index` in two at the byte offset `offset`
    /// does: the document stays as it is, a piece begins at `offset`, and
    /// where a piece began before, one begins still.
    proof fn lemma_split(
        &self,
        index: int,
        location: PieceLocation,
        offset: int,
        left: Piece,
        right: Piece,
        left_breaks: int,
        other: int,
    )
        requires
            self.wf(),
            is_location(self.tree@, index, location),
            index == index_at_offset(self.tree@, offset),
            location.start < offset < location.start + location.piece.length,
            is_boundary(self@, offset),
            left_breaks == line_break_count(
                piece_bytes(location.piece, self.original_buffers@, self.added_buffers@).subrange(
                    0,
                    offset - location.start,
                ),
            ),
            left.piece_type == location.piece.piece_type,
            left.buffer_index == location.piece.buffer_index,
            left.start == location.piece.start,
            left.length == offset - location.start,
            left.line_break_count == left_breaks,
            right.piece_type == location.piece.piece_type,
            right.buffer_index == location.piece.buffer_index,
            right.start == location.piece.start + (offset - location.start),
            right.length == location.piece.length - (offset - location.start),
            right.line_break_count == location.piece.line_break_count - left_breaks,
        ensures
            ({
                let pieces = self.tree@;
                let cut = pieces.update(index, left);
                let after = cut.insert(index + 1, right);
                &&& offset < total_length(pieces)
                &&& total_length(cut) <= usize::MAX
                &&& total_line_breaks(cut) <= usize::MAX
                &&& total_length(cut) + right.length <= usize::MAX
                &&& total_line_breaks(cut) + right.line_break_count <= usize::MAX
                &&& cut.len() < usize::MAX
                &&& insertion_index(cut, offset) == index + 1
                &&& pieces_ok(after, self.original_buffers@, self.added_buffers@)
                &&& document(after, self.original_buffers@, self.added_buffers@) == self@
                &&& piece_starts_at(after, offset)
                &&& piece_starts_at(pieces, other) ==> piece_starts_at(after, other)
            }),
    {
        reveal(TextBuffer::wf);
        let pieces = self.tree@;
        let original = self.original_buffers@;
        let added = self.added_buffers@;
        let piece = location.piece;
        let cut_at = offset - location.start;
        let cut = pieces.update(index, left);
        let after = cut.insert(index + 1, right);
        self.lemma_tree();
        self.lemma_located(index, location);
        let bytes = piece_bytes(piece, original, added);
        assert(bytes[cut_at] == self@[offset]);
        lemma_split_piece(piece, left, right, cut_at, original, added);
        lemma_document_split(pieces, index, left, right, original, added);
        lemma_total_update(pieces, index, left);
        lemma_total_insert(cut, index + 1, right);
        lemma_document_totals(after, original, added);
        lemma_insertion_index_is(cut, offset, index + 1);
        assert(total_length(after.take(index + 1)) == offset) by {
            assert(after.take(index + 1) == pieces.take(index).push(left));
            assert(pieces.take(index).push(left).drop_last() =~= pieces.take(index));
        }
        if piece_starts_at(pieces, other) {
            let k = choose|k: int|
                0 <= k <= pieces.len() && #[trigger] total_length(pieces.take(k)) == other;
            if k <= index {
                assert(after.take(k) == pieces.take(k));
            } else {
                assert(total_length(after.take(k + 1)) == total_length(pieces.take(k)));
            }
        }
    }

    /// Cuts the piece that covers the byte at `offset` in two at that
    /// offset, unless a piece begins there. The document stays as it is.
    fn split_at_offset(&mut self, offset: usize, Ghost(other): Ghost<int>) -> (result:
        TextBufferResult<()>)
        requires
            old(self).wf(),
            is_boundary(old(self)@, offset as int),
        ensures
            final(self).wf(),
            result is Ok,
            final(self)@ == old(self)@,
            final(self).original_buffers == old(self).original_buffers,
            final(self).added_buffers == old(self).added_buffers,
            piece_starts_at(final(self).tree@, offset as int),
            piece_starts_at(old(self).tree@, other) ==> piece_starts_at(final(self).tree@, other),
            old(self).tree@.len() <= final(self).tree@.len() <= old(self).tree@.len() + 1,
    {
        let ghost pieces = self.tree@;
        proof {
            self.lemma_tree();
            lemma_index_at_offset(pieces, offset as int);
        }
        let location = match self.tree.locate_offset(offset) {
            Some(location) => location,
            None => {
                proof {
                    assert(pieces.take(pieces.len() as int) =~= pieces);
                }
                return Ok(());
            },
        };
        let ghost index = index_at_offset(pieces, offset as int);
        proof {
            self.lemma_located(index, location);
        }
        if location.start == offset {
            return Ok(());
        }
        let piece = location.piece;
        let text = match self.get_piece_content(&piece) {
            Some(text) => text,
            None => {
                return Err(TextBufferError::PieceResolutionFailure);
            },
        };
        let bytes = text.as_bytes();
        let cut = offset - location.start;
        let left_breaks = count_line_breaks_in(bytes, 0, cut);
        proof {
            lemma_line_break_count_split(bytes@, cut as int, piece.length as int);
            assert(bytes@.take(piece.length as int) =~= bytes@);
            assert(bytes@.take(cut as int) =~= bytes@.subrange(0, cut as int));
        }
        let (left, right) = piece.split_at(cut, left_breaks);
        proof {
            self.lemma_split(
                index,
                location,
                offset as int,
                left,
                right,
                left_breaks as int,
                other,
            );
            self.lemma_parts();
        }
        self.tree.replace_at(offset, left);
        self.tree.insert_at(offset, right);
        proof {
            self.lemma_parts();
        }
        Ok(())
    }

    /// What putting `piece` at the byte offset `offset`, at which a piece
    /// begins, does to the document.
    proof fn lemma_insert(&self, offset: int, piece: Piece)
        requires
            self.wf(),
            piece_starts_at(self.tree@, offset),
            piece_ok(piece, self.original_buffers@, self.added_buffers@),
            self@.len() + piece.length < usize::MAX,
        ensures
            ({
                let pieces = self.tree@;
                let after = pieces.insert(insertion_index(pieces, offset), piece);
                &&& 0 <= offset <= self@.len()
                &&& pieces.len() < usize::MAX
                &&& total_length(pieces) + piece.length <= usize::MAX
                &&& total_line_breaks(pieces) + piece.line_break_count <= usize::MAX
                &&& pieces_ok(after, self.original_buffers@, self.added_buffers@)
                &&& document(after, self.original_buffers@, self.added_buffers@) == self@.take(
                    offset,
                ) + piece_bytes(piece, self.original_buffers@, self.added_buffers@) + self@.skip(
                    offset,
                )
                &&& document(after, self.original_buffers@, self.added_buffers@).len()
                    == self@.len() + piece.length
            }),
    {
        reveal(TextBuffer::wf);
        let pieces = self.tree@;
        let original = self.original_buffers@;
        let added = self.added_buffers@;
        self.lemma_tree();
        let k = choose|k: int|
            0 <= k <= pieces.len() && #[trigger] total_length(pieces.take(k)) == offset;
        lemma_total_take(pieces, k);
        if k > 0 {
            assert(piece_ok(pieces[k - 1], original, added));
            assert(pieces.take(k).drop_last() =~= pieces.take(k - 1));
        }
        lemma_insertion_index_is(pieces, offset, k);
        lemma_document_insert(pieces, k, piece, original, added);
        lemma_document_totals(pieces.insert(k, piece), original, added);
        lemma_total_insert(pieces, k, piece);
        lemma_line_break_count_bound(document(pieces.insert(k, piece), original, added));
    }

    /// What making the piece at `index`, which ends at the byte offset
    /// `offset`, longer by `piece` does to the document, where `piece`
    /// names the bytes that follow it in its store.
    proof fn lemma_extend(
        &self,
        index: int,
        location: PieceLocation,
        offset: int,
        piece: Piece,
        joined: Piece,
    )
        requires
            self.wf(),
            is_location(self.tree@, index, location),
            location.start + location.piece.length == offset,
            piece_ok(piece, self.original_buffers@, self.added_buffers@),
            self@.len() + piece.length < usize::MAX,
            piece.piece_type == location.piece.piece_type,
            piece.buffer_index == location.piece.buffer_index,
            piece.start == location.piece.start + location.piece.length,
            joined.piece_type == piece.piece_type,
            joined.buffer_index == piece.buffer_index,
            joined.start == location.piece.start,
            joined.length == location.piece.length + piece.length,
            joined.line_break_count == location.piece.line_break_count + piece.line_break_count,
        ensures
            ({
                let after = self.tree@.update(index, joined);
                &&& total_length(after) <= usize::MAX
                &&& total_line_breaks(after) <= usize::MAX
                &&& pieces_ok(after, self.original_buffers@, self.added_buffers@)
                &&& document(after, self.original_buffers@, self.added_buffers@) == self@.take(
                    offset,
                ) + piece_bytes(piece, self.original_buffers@, self.added_buffers@) + self@.skip(
                    offset,
                )
                &&& document(after, self.original_buffers@, self.added_buffers@).len()
                    == self@.len() + piece.length
            }),
    {
        reveal(TextBuffer::wf);
        let pieces = self.tree@;
        let original = self.original_buffers@;
        let added = self.added_buffers@;
        let after = pieces.update(index, joined);
        self.lemma_tree();
        self.lemma_located(index, location);
        lemma_joined_piece(location.piece, piece, joined, original, added);
        lemma_document_update(pieces, index, joined, original, added);
        lemma_document_totals(after, original, added);
        lemma_line_break_count_bound(document(after, original, added));
        let start = location.start as int;
        assert(self@.take(start) + (piece_bytes(location.piece, original, added) + piece_bytes(
            piece,
            original,
            added,
        )) + self@.skip(offset) =~= self@.take(offset) + piece_bytes(piece, original, added)
            + self@.skip(offset));
    }

    /// Makes the piece that ends at the byte offset `offset` longer by
    /// `piece`, where `piece` names the bytes that follow it in its store.
    /// Tells whether it did so: it does so exactly where a piece ends at
    /// `offset`, in the store of `piece`, at the byte at which `piece`
    /// begins. Where it did not, nothing has changed.
    fn extend_piece(&mut self, offset: usize, piece: Piece) -> (result: bool)
        requires
            old(self).wf(),
            offset <= old(self)@.len(),
            piece_ok(piece, old(self).original_buffers@, old(self).added_buffers@),
            old(self)@.len() + piece.length < usize::MAX,
        ensures
            final(self).wf(),
            final(self).original_buffers == old(self).original_buffers,
            final(self).added_buffers == old(self).added_buffers,
            result == joins_at(old(self).tree@, offset as int, piece),
            result ==> final(self).tree@ == old(self).tree@.update(
                index_at_offset(old(self).tree@, offset - 1),
                joined_piece(
                    old(self).tree@[index_at_offset(old(self).tree@, offset - 1)],
                    piece,
                ),
            ),
            result ==> final(self)@ == old(self)@.take(offset as int) + piece_bytes(
                piece,
                old(self).original_buffers@,
                old(self).added_buffers@,
            ) + old(self)@.skip(offset as int),
            !result ==> final(self).tree == old(self).tree,
            final(self).tree@.len() == old(self).tree@.len(),
    {
        if offset == 0 {
            return false;
        }
        proof {
            self.lemma_tree();
            lemma_index_at_offset(self.tree@, offset - 1);
        }
        let location = match self.tree.locate_offset(offset - 1) {
            Some(location) => location,
            None => {
                return false;
            },
        };
        let last = location.piece;
        let ghost index = index_at_offset(self.tree@, offset - 1);
        proof {
            self.lemma_located(index, location);
            self.lemma_piece_in_store(piece);
            self.lemma_piece_in_store(last);
        }
        if location.start + last.length != offset || last.piece_type != piece.piece_type
            || last.buffer_index != piece.buffer_index || last.start + last.length != piece.start {
            return false;
        }
        let joined = Piece::new(
            last.piece_type,
            last.buffer_index,
            last.start,
            last.length + piece.length,
            last.line_break_count + piece.line_break_count,
        );
        proof {
            self.lemma_extend(index, location, offset as int, piece, joined);
            self.lemma_parts();
        }
        self.tree.replace_at(offset - 1, joined);
        proof {
            self.lemma_parts();
        }
        true
    }

    /// Puts `text` into the document at the place that `position` names.
    /// The error is `PositionOutOfBounds` where it names no place; the
    /// document then stays as it is. Text that is put in behind the text
    /// of the insertion before it makes the piece of that text longer;
    /// other text gets a piece of its own, in front of which the piece
    /// that covers the place is cut in two.
    pub fn insert(&mut self, position: Position, text: &str) -> (result: TextBufferResult<()>)
        requires
            old(self).wf(),
            old(self)@.len() + encode_utf8(text@).len() < usize::MAX,
        ensures
            final(self).wf(),
            result is Ok <==> position_exists(
                old(self)@,
                position.line as int,
                position.column as int,
            ),
            result is Ok ==> final(self)@ == old(self)@.take(
                position_offset(old(self)@, position.line as int, position.column as int),
            ) + encode_utf8(text@) + old(self)@.skip(
                position_offset(old(self)@, position.line as int, position.column as int),
            ),
            result is Err ==> result == Err::<(), TextBufferError>(
                TextBufferError::PositionOutOfBounds,
            ) && final(self)@ == old(self)@,
            final(self).original_stores() == old(self).original_stores(),
            final(self).added_stores().len() == old(self).added_stores().len(),
            stores_grow(old(self).added_stores(), final(self).added_stores()),
            final(self).pieces().len() <= old(self).pieces().len() + 2,
    {
        proof {
            lemma_stores_grow_same(self.added_buffers@);
        }
        let offset = match self.position_to_offset(position) {
            Ok(offset) => offset,
            Err(error) => {
                return Err(error);
            },
        };
        let length = text.as_bytes().len();
        if length == 0 {
            proof {
                assert(self@.take(offset as int) + encode_utf8(text@) + self@.skip(offset as int)
                    =~= self@);
            }
            return Ok(());
        }
        let piece = self.append_added(text);
        if self.extend_piece(offset, piece) {
            return Ok(());
        }
        match self.split_at_offset(offset, Ghost(0)) {
            Ok(_) => {},
            Err(error) => {
                return Err(error);
            },
        }
        proof {
            self.lemma_insert(offset as int, piece);
            self.lemma_tree();
            self.lemma_parts();
        }
        self.tree.insert_at(offset, piece);
        proof {
            self.lemma_parts();
        }
        Ok(())
    }

    /// Appends `text`, which is not empty, to the last added store and
    /// returns a piece for it. The document stays as it is.
    fn append_added(&mut self, text: &str) -> (result: Piece)
        requires
            old(self).wf(),
            encode_utf8(text@).len() > 0,
        ensures
            final(self).wf(),
            final(self)@ == old(self)@,
            final(self).tree == old(self).tree,
            piece_ok(result, final(self).original_buffers@, final(self).added_buffers@),
            piece_bytes(result, final(self).original_buffers@, final(self).added_buffers@)
                == encode_utf8(text@),
            result.length == encode_utf8(text@).len(),
            final(self).original_buffers == old(self).original_buffers,
            final(self).added_buffers@.len() == old(self).added_buffers@.len(),
            stores_grow(old(self).added_buffers@, final(self).added_buffers@),
    {
        proof {
            self.lemma_parts();
        }
        let bytes = text.as_bytes();
        let length = bytes.len();
        let line_breaks = utils::count_line_breaks(text);
        let ghost old_added = self.added_buffers@;
        let mut buffer = self.added_buffers.pop().unwrap();
        let start = buffer.len();
        buffer.append(text);
        let end = buffer.len();
        let index = self.added_buffers.len();
        self.added_buffers.push(buffer);
        let piece = Piece::added(index, start, length, line_breaks);
        proof {
            let original = self.original_buffers@;
            let added = self.added_buffers@;
            let before = old_added.last()@;
            assert(added.last()@ =~= before + encode_utf8(text@));
            assert(added.last()@.take(before.len() as int) =~= before);
            lemma_stores_grow_last(old_added, added);
            lemma_stores_grow_same(original);
            lemma_document_frame(self.tree@, original, old_added, original, added);
            lemma_piece_of_appended(piece, original, added, before, text@);
            assert forall|i: int| 0 <= i < added.len() implies (#[trigger] added[i]).wf() by {
                if i < index {
                    assert(added[i] == old_added[i]);
                }
            }
            self.lemma_parts();
        }
        piece
    }

    /// What taking the piece that begins at the byte offset `start` out of
    /// the document does, where another piece, or the end, lies
    /// `remaining` bytes behind `start`.
    proof fn lemma_remove(&self, start: int, remaining: int)
        requires
            self.wf(),
            remaining > 0,
            piece_starts_at(self.tree@, start),
            piece_starts_at(self.tree@, start + remaining),
        ensures
            ({
                let pieces = self.tree@;
                let index = index_at_offset(pieces, start);
                let after = pieces.remove(index);
                &&& 0 <= start < total_length(pieces)
                &&& 0 <= index < pieces.len()
                &&& 0 < pieces[index].length <= remaining
                &&& start + remaining <= self@.len()
                &&& pieces_ok(after, self.original_buffers@, self.added_buffers@)
                &&& document(after, self.original_buffers@, self.added_buffers@) == self@.take(
                    start,
                ) + self@.skip(start + pieces[index].length)
                &&& piece_starts_at(after, start)
                &&& piece_starts_at(after, start + remaining - pieces[index].length)
            }),
    {
        reveal(TextBuffer::wf);
        let pieces = self.tree@;
        let original = self.original_buffers@;
        let added = self.added_buffers@;
        self.lemma_tree();
        assert forall|i: int| 0 <= i < pieces.len() implies (#[trigger] pieces[i]).length > 0 by {
            assert(piece_ok(pieces[i], original, added));
        }
        lemma_remove_at_start(pieces, start, start + remaining);
        let index = index_at_offset(pieces, start);
        lemma_document_remove(pieces, index, original, added);
        lemma_total_take(pieces, index + 1);
        assert(pieces.take(index + 1).drop_last() =~= pieces.take(index));
        let last = choose|k: int|
            0 <= k <= pieces.len() && #[trigger] total_length(pieces.take(k)) == start
                + remaining;
        lemma_total_take(pieces, last);
    }

    /// Takes the text between the places that `range` names out of the
    /// document and returns it. The errors are those of
    /// `get_text_in_range`; the document then stays as it is.
    pub fn delete(&mut self, range: Range) -> (result: TextBufferResult<String>)
        requires
            old(self).wf(),
        ensures
            final(self).wf(),
            range_offsets(old(self)@, range) is Err ==> result == Err::<String, TextBufferError>(
                range_offsets(old(self)@, range)->Err_0,
            ) && final(self)@ == old(self)@,
            range_offsets(old(self)@, range) is Ok ==> result is Ok && encode_utf8(
                result.unwrap()@,
            ) == old(self)@.subrange(
                range_offsets(old(self)@, range)->Ok_0.0,
                range_offsets(old(self)@, range)->Ok_0.1,
            ) && final(self)@ == old(self)@.take(range_offsets(old(self)@, range)->Ok_0.0) + old(
                self,
            )@.skip(range_offsets(old(self)@, range)->Ok_0.1),
            range_offsets(old(self)@, range) is Ok ==> result.unwrap()@ == decode_utf8(
                old(self)@.subrange(
                    range_offsets(old(self)@, range)->Ok_0.0,
                    range_offsets(old(self)@, range)->Ok_0.1,
                ),
            ),
            final(self).original_stores() == old(self).original_stores(),
            final(self).added_stores() == old(self).added_stores(),
            final(self).pieces().len() <= old(self).pieces().len() + 2,
    {
        let start = match self.position_to_offset(range.start) {
            Ok(start) => start,
            Err(error) => {
                return Err(error);
            },
        };
        let end = match self.position_to_offset(range.end) {
            Ok(end) => end,
            Err(error) => {
                return Err(error);
            },
        };
        if start >= end {
            return Err(TextBufferError::InvalidRange);
        }
        let deleted = match self.text_between(start, end) {
            Ok(deleted) => deleted,
            Err(error) => {
                return Err(error);
            },
        };
        match self.split_at_offset(end, Ghost(0)) {
            Ok(_) => {},
            Err(error) => {
                return Err(error);
            },
        }
        match self.split_at_offset(start, Ghost(end as int)) {
            Ok(_) => {},
            Err(error) => {
                return Err(error);
            },
        }
        let mut remaining: usize = end - start;
        proof {
            assert(self@ =~= old(self)@.take(start as int) + old(self)@.skip(end - remaining));
        }
        while remaining > 0
            invariant
                self.wf(),
                0 <= remaining <= end - start,
                end <= old(self)@.len(),
                self@ == old(self)@.take(start as int) + old(self)@.skip(end - remaining),
                piece_starts_at(self.tree@, start as int),
                piece_starts_at(self.tree@, start + remaining),
                self.original_buffers == old(self).original_buffers,
                self.added_buffers == old(self).added_buffers,
                self.tree@.len() <= old(self).tree@.len() + 2,
            decreases remaining,
        {
            let ghost before = self@;
            proof {
                self.lemma_remove(start as int, remaining as int);
                self.lemma_tree();
                self.lemma_parts();
            }
            let piece = match self.tree.remove_at(start) {
                Some(piece) => piece,
                None => {
                    return Err(TextBufferError::PieceResolutionFailure);
                },
            };
            proof {
                assert(before.take(start as int) =~= old(self)@.take(start as int));
                assert(before.skip(start + piece.length) =~= old(self)@.skip(
                    end - remaining + piece.length,
                ));
                self.lemma_parts();
            }
            remaining = remaining - piece.length;
        }
        proof {
            let offsets = range_offsets(old(self)@, range);
            assert(offsets == Ok::<(int, int), TextBufferError>((start as int, end as int)));
        }
        Ok(deleted)
    }
}

/// Copies `stores`, one by one.
fn clone_stores(stores: &Vec<Buffer>) -> (result: Vec<Buffer>)
    ensures
        result@.len() == stores@.len(),
        forall|i: int| 0 <= i < stores@.len() ==> (#[trigger] result@[i])@ == stores@[i]@,
        stores_wf(stores@) ==> stores_wf(result@),
{
    let mut copies: Vec<Buffer> = Vec::new();
    let mut i: usize = 0;
    while i < stores.len()
        invariant
            0 <= i <= stores@.len(),
            copies@.len() == i,
            forall|k: int| 0 <= k < i ==> (#[trigger] copies@[k])@ == stores@[k]@,
            forall|k: int| 0 <= k < i ==> (stores@[k].wf() ==> (#[trigger] copies@[k]).wf()),
        decreases stores@.len() - i,
    {
        copies.push(stores[i].clone());
        i = i + 1;
    }
    copies
}

impl Clone for TextBuffer {
    /// Copies the stores and the index tree: the copy holds the same
    /// document, and edits of one do not reach the other.
    fn clone(&self) -> (result: Self)
        ensures
            result@ == self@,
            self.wf() ==> result.wf(),
    {
        let original_buffers = clone_stores(&self.original_buffers);
        let added_buffers = clone_stores(&self.added_buffers);
        let tree = self.tree.clone();
        let copy = Self { original_buffers, added_buffers, tree };
        proof {
            lemma_document_same_stores(
                self.tree@,
                self.original_buffers@,
                self.added_buffers@,
                copy.original_buffers@,
                copy.added_buffers@,
            );
            self.lemma_parts();
            copy.lemma_parts();
        }
        copy
    }
}

impl Default for TextBuffer {
    /// An empty text buffer.
    fn default() -> (result: Self)
        ensures
            result.wf(),
            result@ == Seq::<u8>::empty(),
    {
        Self::new()
    }
}

} // verus!
