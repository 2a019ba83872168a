//! The text that a sequence of pieces stands for: the bytes of their runs,
//! one after the other.

use crate::buffer::Buffer;
use crate::piece::{Piece, piece_bytes, piece_resolves, piece_store, PieceType};
use crate::red_black_tree::{
    index_at_offset, lemma_total_length_concat, lemma_total_single, total_length, total_line_breaks,
};
use crate::text::{
    is_boundary, is_char_start, lemma_line_break_count_concat, lemma_valid_utf8_first_byte,
    lemma_valid_utf8_range, line_break_count,
};
use vstd::prelude::*;
use vstd::utf8::*;

verus! {

/// True when `piece` is not empty, names a run that lies in its store
/// between scalar values, and counts the line breaks of that run rightly.
pub open spec fn piece_ok(piece: Piece, original: Seq<Buffer>, added: Seq<Buffer>) -> bool {
    &&& piece.length > 0
    &&& piece_resolves(piece, original, added)
    &&& piece.line_break_count == line_break_count(piece_bytes(piece, original, added))
}

/// True when every piece of `pieces` is as `piece_ok` says.
pub open spec fn pieces_ok(pieces: Seq<Piece>, original: Seq<Buffer>, added: Seq<Buffer>) -> bool {
    forall|i: int| 0 <= i < pieces.len() ==> piece_ok(#[trigger] pieces[i], original, added)
}

/// The bytes of the runs of `pieces`, one after the other.
pub open spec fn document(pieces: Seq<Piece>, original: Seq<Buffer>, added: Seq<Buffer>) -> Seq<u8>
    decreases pieces.len(),
{
    if pieces.len() == 0 {
        Seq::empty()
    } else {
        document(pieces.drop_last(), original, added) + piece_bytes(
            pieces.last(),
            original,
            added,
        )
    }
}

/// The document of a concatenation is the concatenation of the documents.
pub proof fn lemma_document_concat(
    a: Seq<Piece>,
    b: Seq<Piece>,
    original: Seq<Buffer>,
    added: Seq<Buffer>,
)
    ensures
        document(a + b, original, added) == document(a, original, added) + document(
            b,
            original,
            added,
        ),
    decreases b.len(),
{
    if b.len() == 0 {
        assert(a + b =~= a);
        assert(document(a, original, added) + document(b, original, added) =~= document(
            a,
            original,
            added,
        ));
    } else {
        assert((a + b).drop_last() =~= a + b.drop_last());
        lemma_document_concat(a, b.drop_last(), original, added);
        assert(document(a + b, original, added) =~= document(a, original, added) + document(
            b,
            original,
            added,
        ));
    }
}

/// The document of a single piece is the bytes of its run.
pub proof fn lemma_document_single(piece: Piece, original: Seq<Buffer>, added: Seq<Buffer>)
    ensures
        document(seq![piece], original, added) == piece_bytes(piece, original, added),
{
    let single = seq![piece];
    assert(single.drop_last() =~= Seq::<Piece>::empty());
    assert(document(single.drop_last(), original, added) =~= Seq::<u8>::empty());
    assert(document(single, original, added) =~= piece_bytes(piece, original, added));
}

/// The run of a piece that is in order is as long as the piece says, and
/// is valid UTF-8.
pub proof fn lemma_piece_bytes(piece: Piece, original: Seq<Buffer>, added: Seq<Buffer>)
    requires
        piece_resolves(piece, original, added),
    ensures
        piece_bytes(piece, original, added).len() == piece.length,
        valid_utf8(piece_bytes(piece, original, added)),
{
    let store = piece_store(piece, original, added).unwrap();
    let buffer = match piece.piece_type {
        PieceType::Original => original[piece.buffer_index as int],
        PieceType::Added => added[piece.buffer_index as int],
    };
    encode_utf8_valid_utf8(buffer.content@);
    lemma_valid_utf8_range(store, piece.start as int, piece.start + piece.length);
}

/// The document of pieces that are in order: as long as their total
/// length, with as many line breaks as their total, valid UTF-8, and at
/// least one byte for each piece.
pub proof fn lemma_document_totals(pieces: Seq<Piece>, original: Seq<Buffer>, added: Seq<Buffer>)
    requires
        pieces_ok(pieces, original, added),
    ensures
        document(pieces, original, added).len() == total_length(pieces),
        line_break_count(document(pieces, original, added)) == total_line_breaks(pieces),
        valid_utf8(document(pieces, original, added)),
        pieces.len() <= total_length(pieces),
    decreases pieces.len(),
{
    if pieces.len() > 0 {
        let front = pieces.drop_last();
        let last = pieces.last();
        assert(piece_ok(last, original, added));
        assert forall|i: int| 0 <= i < front.len() implies piece_ok(
            #[trigger] front[i],
            original,
            added,
        ) by {
            assert(front[i] == pieces[i]);
        }
        lemma_document_totals(front, original, added);
        lemma_piece_bytes(last, original, added);
        lemma_line_break_count_concat(
            document(front, original, added),
            piece_bytes(last, original, added),
        );
        valid_utf8_concat(document(front, original, added), piece_bytes(last, original, added));
    }
}

/// Parts of pieces that are in order are in order.
pub proof fn lemma_pieces_ok_parts(
    pieces: Seq<Piece>,
    from: int,
    to: int,
    original: Seq<Buffer>,
    added: Seq<Buffer>,
)
    requires
        pieces_ok(pieces, original, added),
        0 <= from <= to <= pieces.len(),
    ensures
        pieces_ok(pieces.subrange(from, to), original, added),
{
    assert forall|i: int| 0 <= i < to - from implies piece_ok(
        #[trigger] pieces.subrange(from, to)[i],
        original,
        added,
    ) by {
        assert(pieces.subrange(from, to)[i] == pieces[from + i]);
    }
}

/// Where the piece at `index` lies in the document: behind the document
/// of the pieces in front of it, and in front of the document of the
/// pieces behind it.
pub proof fn lemma_document_piece(
    pieces: Seq<Piece>,
    index: int,
    original: Seq<Buffer>,
    added: Seq<Buffer>,
)
    requires
        pieces_ok(pieces, original, added),
        0 <= index < pieces.len(),
    ensures
        ({
            let whole = document(pieces, original, added);
            let start = total_length(pieces.take(index)) as int;
            let end = start + pieces[index].length;
            &&& 0 <= start < end <= whole.len()
            &&& whole.len() == total_length(pieces)
            &&& whole.take(start) == document(pieces.take(index), original, added)
            &&& whole.subrange(start, end) == piece_bytes(pieces[index], original, added)
            &&& whole.skip(end) == document(pieces.skip(index + 1), original, added)
            &&& line_break_count(whole.take(start)) == total_line_breaks(pieces.take(index))
        }),
{
    let front = pieces.take(index);
    let back = pieces.skip(index + 1);
    let piece = pieces[index];
    let bytes = piece_bytes(piece, original, added);
    let front_doc = document(front, original, added);
    let back_doc = document(back, original, added);
    let whole = document(pieces, original, added);
    assert(pieces =~= front + seq![piece] + back);
    lemma_document_concat(front + seq![piece], back, original, added);
    lemma_document_concat(front, seq![piece], original, added);
    lemma_document_single(piece, original, added);
    assert(whole == front_doc + bytes + back_doc);
    lemma_pieces_ok_parts(pieces, 0, index, original, added);
    assert(pieces.subrange(0, index) =~= front);
    lemma_document_totals(front, original, added);
    lemma_document_totals(pieces, original, added);
    assert(piece_ok(piece, original, added));
    lemma_piece_bytes(piece, original, added);
    let start = front_doc.len() as int;
    let end = start + bytes.len();
    assert(whole.take(start) =~= front_doc);
    assert(whole.subrange(start, end) =~= bytes);
    assert(whole.skip(end) =~= back_doc);
}

/// A part of a piece that is cut between scalar values lies in the store
/// of the piece, and its bytes are that part of the bytes of the piece.
pub proof fn lemma_part_of_piece(
    piece: Piece,
    part: Piece,
    from: int,
    to: int,
    original: Seq<Buffer>,
    added: Seq<Buffer>,
)
    requires
        piece_resolves(piece, original, added),
        0 <= from <= to <= piece.length,
        part.piece_type == piece.piece_type,
        part.buffer_index == piece.buffer_index,
        part.start == piece.start + from,
        part.length == to - from,
        from < piece.length ==> is_char_start(piece_bytes(piece, original, added)[from]),
        to < piece.length ==> is_char_start(piece_bytes(piece, original, added)[to]),
    ensures
        piece_resolves(part, original, added),
        piece_bytes(part, original, added) == piece_bytes(piece, original, added).subrange(
            from,
            to,
        ),
{
    let store = piece_store(piece, original, added).unwrap();
    let bytes = piece_bytes(piece, original, added);
    assert(piece_store(part, original, added) == Some(store));
    if from < piece.length {
        assert(bytes[from] == store[piece.start + from]);
    }
    if to < piece.length {
        assert(bytes[to] == store[piece.start + to]);
    }
    assert(part.fits(store));
    assert(part.bytes_in(store) =~= bytes.subrange(from, to));
}

/// The two parts of a piece that is cut between two scalar values are in
/// order, and their bytes are the bytes of the piece.
pub proof fn lemma_split_piece(
    piece: Piece,
    left: Piece,
    right: Piece,
    cut: int,
    original: Seq<Buffer>,
    added: Seq<Buffer>,
)
    requires
        piece_ok(piece, original, added),
        0 < cut < piece.length,
        is_char_start(piece_bytes(piece, original, added)[cut]),
        left.piece_type == piece.piece_type,
        left.buffer_index == piece.buffer_index,
        left.start == piece.start,
        left.length == cut,
        left.line_break_count == line_break_count(
            piece_bytes(piece, original, added).subrange(0, cut),
        ),
        right.piece_type == piece.piece_type,
        right.buffer_index == piece.buffer_index,
        right.start == piece.start + cut,
        right.length == piece.length - cut,
        right.line_break_count == piece.line_break_count - left.line_break_count,
    ensures
        piece_ok(left, original, added),
        piece_ok(right, original, added),
        piece_bytes(left, original, added) + piece_bytes(right, original, added) == piece_bytes(
            piece,
            original,
            added,
        ),
        left.line_break_count <= piece.line_break_count,
{
    let bytes = piece_bytes(piece, original, added);
    lemma_piece_bytes(piece, original, added);
    lemma_part_of_piece(piece, left, 0, cut, original, added);
    lemma_part_of_piece(piece, right, cut, piece.length as int, original, added);
    assert(bytes =~= bytes.subrange(0, cut) + bytes.subrange(cut, piece.length as int));
    lemma_line_break_count_concat(bytes.subrange(0, cut), bytes.subrange(cut, piece.length as int));
}

/// The document after the piece at `index` was cut in two.
pub proof fn lemma_document_split(
    pieces: Seq<Piece>,
    index: int,
    left: Piece,
    right: Piece,
    original: Seq<Buffer>,
    added: Seq<Buffer>,
)
    requires
        pieces_ok(pieces, original, added),
        0 <= index < pieces.len(),
        piece_ok(left, original, added),
        piece_ok(right, original, added),
        piece_bytes(left, original, added) + piece_bytes(right, original, added) == piece_bytes(
            pieces[index],
            original,
            added,
        ),
    ensures
        pieces_ok(pieces.update(index, left).insert(index + 1, right), original, added),
        document(pieces.update(index, left).insert(index + 1, right), original, added)
            == document(pieces, original, added),
        pieces.update(index, left).insert(index + 1, right).take(index + 1) == pieces.take(
            index,
        ).push(left),
        total_length(pieces.update(index, left).take(index)) == total_length(pieces.take(index)),
        total_length(pieces.update(index, left).take(index + 1)) == total_length(
            pieces.take(index),
        ) + left.length,
        forall|k: int|
            0 <= k <= index ==> #[trigger] pieces.update(index, left).insert(
                index + 1,
                right,
            ).take(k) == pieces.take(k),
        forall|k: int|
            index < k <= pieces.len() ==> total_length(
                #[trigger] pieces.update(index, left).insert(index + 1, right).take(k + 1),
            ) == total_length(pieces.take(k)),
{
    let front = pieces.take(index);
    let back = pieces.skip(index + 1);
    let piece = pieces[index];
    let middle = pieces.update(index, left);
    let after = middle.insert(index + 1, right);
    assert(pieces =~= front + seq![piece] + back);
    assert(after =~= front + seq![left] + seq![right] + back);
    lemma_document_concat(front + seq![piece], back, original, added);
    lemma_document_concat(front, seq![piece], original, added);
    lemma_document_single(piece, original, added);
    lemma_document_concat(front + seq![left] + seq![right], back, original, added);
    lemma_document_concat(front + seq![left], seq![right], original, added);
    lemma_document_concat(front, seq![left], original, added);
    lemma_document_single(left, original, added);
    lemma_document_single(right, original, added);
    let front_doc = document(front, original, added);
    let back_doc = document(back, original, added);
    assert(front_doc + piece_bytes(left, original, added) + piece_bytes(right, original, added)
        + back_doc =~= front_doc + (piece_bytes(left, original, added) + piece_bytes(
        right,
        original,
        added,
    )) + back_doc);
    assert forall|i: int| 0 <= i < after.len() implies piece_ok(
        #[trigger] after[i],
        original,
        added,
    ) by {
        if i < index {
            assert(after[i] == pieces[i]);
        } else if i > index + 1 {
            assert(after[i] == pieces[i - 1]);
        }
    }
    assert(after.take(index + 1) =~= front.push(left));
    assert(middle.take(index) =~= front);
    assert(middle.take(index + 1) =~= front.push(left));
    assert(front.push(left).drop_last() =~= front);
    assert forall|k: int| 0 <= k <= index implies #[trigger] after.take(k) == pieces.take(k) by {
        assert(after.take(k) =~= pieces.take(k));
    }
    lemma_piece_bytes(piece, original, added);
    lemma_piece_bytes(left, original, added);
    lemma_piece_bytes(right, original, added);
    assert forall|k: int| index < k <= pieces.len() implies total_length(
        #[trigger] after.take(k + 1),
    ) == total_length(pieces.take(k)) by {
        let rest = back.take(k - index - 1);
        assert(after.take(k + 1) =~= front + seq![left] + seq![right] + rest);
        assert(pieces.take(k) =~= front + seq![piece] + rest);
        lemma_total_length_concat(front + seq![left] + seq![right], rest);
        lemma_total_length_concat(front + seq![left], seq![right]);
        lemma_total_length_concat(front, seq![left]);
        lemma_total_length_concat(front + seq![piece], rest);
        lemma_total_length_concat(front, seq![piece]);
        lemma_total_single(piece);
        lemma_total_single(left);
        lemma_total_single(right);
    }
}

/// The piece that names the run of `first` and, behind it, the run of
/// `second`: it begins where `first` begins, and has the length and the
/// line breaks of both.
pub open spec fn joined_piece(first: Piece, second: Piece) -> Piece {
    Piece {
        piece_type: first.piece_type,
        buffer_index: first.buffer_index,
        start: first.start,
        length: (first.length + second.length) as usize,
        line_break_count: (first.line_break_count + second.line_break_count) as usize,
    }
}

/// True when a piece of `pieces` ends at the byte offset `offset` and
/// `piece` names the bytes that follow the run of that piece in its
/// store, so that the two can be one piece.
pub open spec fn joins_at(pieces: Seq<Piece>, offset: int, piece: Piece) -> bool {
    let index = index_at_offset(pieces, offset - 1);
    &&& 0 < offset <= total_length(pieces)
    &&& total_length(pieces.take(index)) + pieces[index].length == offset
    &&& pieces[index].piece_type == piece.piece_type
    &&& pieces[index].buffer_index == piece.buffer_index
    &&& pieces[index].start + pieces[index].length == piece.start
}

/// Two pieces of one store, of which the second begins where the first
/// ends, make one piece that is in order, with the bytes of both.
pub proof fn lemma_joined_piece(
    first: Piece,
    second: Piece,
    joined: Piece,
    original: Seq<Buffer>,
    added: Seq<Buffer>,
)
    requires
        piece_ok(first, original, added),
        piece_ok(second, original, added),
        second.piece_type == first.piece_type,
        second.buffer_index == first.buffer_index,
        second.start == first.start + first.length,
        joined.piece_type == first.piece_type,
        joined.buffer_index == first.buffer_index,
        joined.start == first.start,
        joined.length == first.length + second.length,
        joined.line_break_count == first.line_break_count + second.line_break_count,
    ensures
        piece_ok(joined, original, added),
        piece_bytes(joined, original, added) == piece_bytes(first, original, added) + piece_bytes(
            second,
            original,
            added,
        ),
{
    let store = piece_store(first, original, added).unwrap();
    assert(piece_store(second, original, added) == Some(store));
    assert(piece_store(joined, original, added) == Some(store));
    assert(joined.bytes_in(store) =~= first.bytes_in(store) + second.bytes_in(store));
    lemma_line_break_count_concat(first.bytes_in(store), second.bytes_in(store));
}

/// The document after a piece was put in at `index`.
pub proof fn lemma_document_insert(
    pieces: Seq<Piece>,
    index: int,
    piece: Piece,
    original: Seq<Buffer>,
    added: Seq<Buffer>,
)
    requires
        pieces_ok(pieces, original, added),
        piece_ok(piece, original, added),
        0 <= index <= pieces.len(),
    ensures
        pieces_ok(pieces.insert(index, piece), original, added),
        document(pieces.insert(index, piece), original, added) == document(
            pieces,
            original,
            added,
        ).take(total_length(pieces.take(index)) as int) + piece_bytes(piece, original, added)
            + document(pieces, original, added).skip(total_length(pieces.take(index)) as int),
        total_length(pieces.take(index)) <= document(pieces, original, added).len(),
{
    let front = pieces.take(index);
    let back = pieces.skip(index);
    let after = pieces.insert(index, piece);
    assert(pieces =~= front + back);
    assert(after =~= front + seq![piece] + back);
    lemma_document_concat(front, back, original, added);
    lemma_document_concat(front + seq![piece], back, original, added);
    lemma_document_concat(front, seq![piece], original, added);
    lemma_document_single(piece, original, added);
    lemma_pieces_ok_parts(pieces, 0, index, original, added);
    assert(pieces.subrange(0, index) =~= front);
    lemma_document_totals(front, original, added);
    let front_doc = document(front, original, added);
    let back_doc = document(back, original, added);
    let whole = document(pieces, original, added);
    assert(whole.take(front_doc.len() as int) =~= front_doc);
    assert(whole.skip(front_doc.len() as int) =~= back_doc);
    assert forall|i: int| 0 <= i < after.len() implies piece_ok(
        #[trigger] after[i],
        original,
        added,
    ) by {
        if i < index {
            assert(after[i] == pieces[i]);
        } else if i > index {
            assert(after[i] == pieces[i - 1]);
        }
    }
}

/// The document after the piece at `index` was exchanged for another.
pub proof fn lemma_document_update(
    pieces: Seq<Piece>,
    index: int,
    piece: Piece,
    original: Seq<Buffer>,
    added: Seq<Buffer>,
)
    requires
        pieces_ok(pieces, original, added),
        piece_ok(piece, original, added),
        0 <= index < pieces.len(),
    ensures
        pieces_ok(pieces.update(index, piece), original, added),
        document(pieces.update(index, piece), original, added) == document(
            pieces,
            original,
            added,
        ).take(total_length(pieces.take(index)) as int) + piece_bytes(piece, original, added)
            + document(pieces, original, added).skip(
            total_length(pieces.take(index)) + pieces[index].length,
        ),
{
    let front = pieces.take(index);
    let back = pieces.skip(index + 1);
    let after = pieces.update(index, piece);
    assert(after =~= front + seq![piece] + back);
    lemma_document_concat(front + seq![piece], back, original, added);
    lemma_document_concat(front, seq![piece], original, added);
    lemma_document_single(piece, original, added);
    lemma_document_piece(pieces, index, original, added);
    assert forall|i: int| 0 <= i < after.len() implies piece_ok(
        #[trigger] after[i],
        original,
        added,
    ) by {
        if i != index {
            assert(after[i] == pieces[i]);
        }
    }
}

/// The document after the piece at `index` was taken out.
pub proof fn lemma_document_remove(
    pieces: Seq<Piece>,
    index: int,
    original: Seq<Buffer>,
    added: Seq<Buffer>,
)
    requires
        pieces_ok(pieces, original, added),
        0 <= index < pieces.len(),
    ensures
        pieces_ok(pieces.remove(index), original, added),
        document(pieces.remove(index), original, added) == document(pieces, original, added).take(
            total_length(pieces.take(index)) as int,
        ) + document(pieces, original, added).skip(
            total_length(pieces.take(index)) + pieces[index].length,
        ),
{
    let front = pieces.take(index);
    let back = pieces.skip(index + 1);
    let after = pieces.remove(index);
    assert(after =~= front + back);
    lemma_document_concat(front, back, original, added);
    lemma_document_piece(pieces, index, original, added);
    assert forall|i: int| 0 <= i < after.len() implies piece_ok(
        #[trigger] after[i],
        original,
        added,
    ) by {
        if i < index {
            assert(after[i] == pieces[i]);
        } else {
            assert(after[i] == pieces[i + 1]);
        }
    }
}

/// Pieces that are in order stay in order, and stand for the same
/// document, when their stores only grow by valid UTF-8.
pub proof fn lemma_document_frame(
    pieces: Seq<Piece>,
    original: Seq<Buffer>,
    added: Seq<Buffer>,
    new_original: Seq<Buffer>,
    new_added: Seq<Buffer>,
)
    requires
        pieces_ok(pieces, original, added),
        stores_grow(original, new_original),
        stores_grow(added, new_added),
    ensures
        pieces_ok(pieces, new_original, new_added),
        document(pieces, new_original, new_added) == document(pieces, original, added),
    decreases pieces.len(),
{
    if pieces.len() > 0 {
        let front = pieces.drop_last();
        let last = pieces.last();
        assert(piece_ok(last, original, added));
        lemma_pieces_ok_parts(pieces, 0, pieces.len() - 1, original, added);
        assert(pieces.subrange(0, pieces.len() - 1) =~= front);
        lemma_document_frame(front, original, added, new_original, new_added);
        lemma_piece_frame(last, original, added, new_original, new_added);
        assert forall|i: int| 0 <= i < pieces.len() implies piece_ok(
            #[trigger] pieces[i],
            new_original,
            new_added,
        ) by {
            if i < front.len() {
                assert(pieces[i] == front[i]);
            }
        }
    }
}

/// Pieces stand for the same document, and are in order just as before,
/// in stores that hold the same bytes.
pub proof fn lemma_document_same_stores(
    pieces: Seq<Piece>,
    original: Seq<Buffer>,
    added: Seq<Buffer>,
    new_original: Seq<Buffer>,
    new_added: Seq<Buffer>,
)
    requires
        original.len() == new_original.len(),
        added.len() == new_added.len(),
        forall|i: int| 0 <= i < original.len() ==> (#[trigger] new_original[i])@ == original[i]@,
        forall|i: int| 0 <= i < added.len() ==> (#[trigger] new_added[i])@ == added[i]@,
    ensures
        document(pieces, new_original, new_added) == document(pieces, original, added),
        pieces_ok(pieces, original, added) ==> pieces_ok(pieces, new_original, new_added),
    decreases pieces.len(),
{
    if pieces.len() > 0 {
        lemma_document_same_stores(pieces.drop_last(), original, added, new_original, new_added);
    }
    assert forall|piece: Piece|
        piece_store(piece, new_original, new_added) == piece_store(piece, original, added) by {
        match piece.piece_type {
            PieceType::Original => {
                if piece.buffer_index < original.len() {
                    assert(new_original[piece.buffer_index as int]@
                        == original[piece.buffer_index as int]@);
                }
            },
            PieceType::Added => {
                if piece.buffer_index < added.len() {
                    assert(new_added[piece.buffer_index as int]@
                        == added[piece.buffer_index as int]@);
                }
            },
        }
    }
    if pieces_ok(pieces, original, added) {
        assert forall|i: int| 0 <= i < pieces.len() implies piece_ok(
            #[trigger] pieces[i],
            new_original,
            new_added,
        ) by {
            assert(piece_ok(pieces[i], original, added));
        }
    }
}

/// True when each store of `before` is there in `after`, with the same
/// bytes and perhaps more behind them.
pub open spec fn stores_grow(before: Seq<Buffer>, after: Seq<Buffer>) -> bool {
    &&& before.len() <= after.len()
    &&& forall|i: int|
        0 <= i < before.len() ==> (#[trigger] before[i])@.len() <= after[i]@.len()
            && after[i]@.take(before[i]@.len() as int) == before[i]@
}

/// Stores that stay as they are have grown by nothing.
pub proof fn lemma_stores_grow_same(stores: Seq<Buffer>)
    ensures
        stores_grow(stores, stores),
{
    assert forall|i: int| 0 <= i < stores.len() implies (#[trigger] stores[i])@.len()
        <= stores[i]@.len() && stores[i]@.take(stores[i]@.len() as int) == stores[i]@ by {
        assert(stores[i]@.take(stores[i]@.len() as int) =~= stores[i]@);
    }
}

/// Stores of which only the last one changed, by growing, have grown; so
/// have stores to which one store was added.
pub proof fn lemma_stores_grow_last(before: Seq<Buffer>, after: Seq<Buffer>)
    requires
        after.len() >= 1,
        before.len() == after.len() || before.len() + 1 == after.len(),
        forall|i: int| 0 <= i < after.len() - 1 ==> before[i] == after[i],
        before.len() == after.len() ==> before.last()@.len() <= after.last()@.len()
            && after.last()@.take(before.last()@.len() as int) == before.last()@,
    ensures
        stores_grow(before, after),
{
    assert forall|i: int| 0 <= i < before.len() implies (#[trigger] before[i])@.len()
        <= after[i]@.len() && after[i]@.take(before[i]@.len() as int) == before[i]@ by {
        if i < after.len() - 1 {
            assert(after[i]@.take(after[i]@.len() as int) =~= after[i]@);
        }
    }
}

/// A piece that names the bytes by which its store has just grown is in
/// order, and its bytes are those bytes.
pub proof fn lemma_piece_of_appended(
    piece: Piece,
    original: Seq<Buffer>,
    added: Seq<Buffer>,
    before: Seq<u8>,
    text: Seq<char>,
)
    requires
        piece_store(piece, original, added) == Some(before + encode_utf8(text)),
        piece.start == before.len(),
        piece.length == encode_utf8(text).len(),
        piece.length > 0,
        piece.line_break_count == line_break_count(encode_utf8(text)),
    ensures
        piece_ok(piece, original, added),
        piece_bytes(piece, original, added) == encode_utf8(text),
{
    let store = before + encode_utf8(text);
    encode_utf8_valid_utf8(text);
    lemma_valid_utf8_first_byte(encode_utf8(text));
    assert(store[piece.start as int] == encode_utf8(text)[0]);
    assert(store.subrange(piece.start as int, piece.start + piece.length) =~= encode_utf8(text));
}

/// A piece that is in order stays in order, with the same bytes, when the
/// stores only grow.
pub proof fn lemma_piece_frame(
    piece: Piece,
    original: Seq<Buffer>,
    added: Seq<Buffer>,
    new_original: Seq<Buffer>,
    new_added: Seq<Buffer>,
)
    requires
        piece_ok(piece, original, added),
        stores_grow(original, new_original),
        stores_grow(added, new_added),
    ensures
        piece_ok(piece, new_original, new_added),
        piece_bytes(piece, new_original, new_added) == piece_bytes(piece, original, added),
{
    let (old_buffer, new_buffer) = match piece.piece_type {
        PieceType::Original => (
            original[piece.buffer_index as int],
            new_original[piece.buffer_index as int],
        ),
        PieceType::Added => (
            added[piece.buffer_index as int],
            new_added[piece.buffer_index as int],
        ),
    };
    let old_store = old_buffer@;
    let new_store = new_buffer@;
    assert(new_store.take(old_store.len() as int) == old_store);
    let end = piece.start + piece.length;
    assert forall|i: int| 0 <= i < old_store.len() implies new_store[i] == old_store[i] by {
        assert(new_store.take(old_store.len() as int)[i] == new_store[i]);
    }
    assert(piece.bytes_in(new_store) =~= piece.bytes_in(old_store));
    if end == old_store.len() && end < new_store.len() {
        encode_utf8_valid_utf8(new_buffer.content@);
        encode_utf8_valid_utf8(old_buffer.content@);
        lemma_grown_store_boundary(old_store, new_store);
    }
}

/// Where valid UTF-8 begins with valid UTF-8, the end of the beginning is
/// a boundary of the whole.
pub proof fn lemma_grown_store_boundary(before: Seq<u8>, after: Seq<u8>)
    requires
        valid_utf8(before),
        valid_utf8(after),
        before.len() <= after.len(),
        after.take(before.len() as int) == before,
    ensures
        is_boundary(after, before.len() as int),
    decreases before.len(),
{
    if before.len() == 0 {
        if after.len() > 0 {
            lemma_valid_utf8_first_byte(after);
        }
    } else {
        assert forall|i: int| 0 <= i < before.len() implies after[i] == before[i] by {
            assert(after.take(before.len() as int)[i] == after[i]);
        }
        let k = length_of_first_scalar(before);
        assert(k == length_of_first_scalar(after));
        let before_rest = pop_first_scalar(before);
        let after_rest = pop_first_scalar(after);
        assert(after_rest.take(before_rest.len() as int) =~= before_rest);
        lemma_grown_store_boundary(before_rest, after_rest);
        if before.len() < after.len() {
            assert(after_rest[before_rest.len() as int] == after[before.len() as int]);
        }
    }
}

} // verus!
