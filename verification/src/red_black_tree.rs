//! The index tree: a red-black tree of pieces in document order. Each node
//! caches the total byte length and the total line-break count of its left
//! subtree, so that a byte offset or a line break is found by one descent.

use crate::piece::Piece;
use vstd::arithmetic::power2::{lemma2_to64, lemma_pow2_unfold, pow2};
use vstd::prelude::*;

verus! {

/// The color of a node.
#[derive(Debug, Clone, Copy, PartialEq, Eq, Structural)]
pub enum Color {
    Red,
    Black,
}

/// A node of the index tree.
#[derive(Debug)]
pub struct RBNode {
    /// The piece that the node holds.
    pub piece: Piece,
    /// The color of the node.
    pub color: Color,
    /// The total length in bytes of the pieces of the left subtree.
    pub left_subtree_length: usize,
    /// The total number of line breaks of the pieces of the left subtree.
    pub left_subtree_line_breaks: usize,
    /// The left child: the pieces before this one.
    pub left: Option<Box<RBNode>>,
    /// The right child: the pieces behind this one.
    pub right: Option<Box<RBNode>>,
}

/// The total length in bytes of `pieces`.
pub open spec fn total_length(pieces: Seq<Piece>) -> nat
    decreases pieces.len(),
{
    if pieces.len() == 0 {
        0
    } else {
        total_length(pieces.drop_last()) + pieces.last().length as nat
    }
}

/// The total number of line breaks of `pieces`.
pub open spec fn total_line_breaks(pieces: Seq<Piece>) -> nat
    decreases pieces.len(),
{
    if pieces.len() == 0 {
        0
    } else {
        total_line_breaks(pieces.drop_last()) + pieces.last().line_break_count as nat
    }
}

/// The index of the piece that covers the byte at `offset`: the first
/// piece that ends behind it. It is `pieces.len()` when there is none.
pub open spec fn index_at_offset(pieces: Seq<Piece>, offset: int) -> int
    decreases pieces.len(),
{
    if pieces.len() == 0 {
        0
    } else if offset < pieces[0].length {
        0
    } else {
        1 + index_at_offset(pieces.drop_first(), offset - pieces[0].length)
    }
}

/// The index of the piece that holds line break number `line_break`,
/// counted from 0: the first piece at whose end more line breaks than
/// that have gone by. It is `pieces.len()` when there is none.
pub open spec fn index_at_line_break(pieces: Seq<Piece>, line_break: int) -> int
    decreases pieces.len(),
{
    if pieces.len() == 0 {
        0
    } else if line_break < pieces[0].line_break_count {
        0
    } else {
        1 + index_at_line_break(pieces.drop_first(), line_break - pieces[0].line_break_count)
    }
}

/// The index at which a piece put at the byte offset `offset` belongs: in
/// front of the first piece that begins at or behind `offset`. It is
/// `pieces.len()` when there is none.
pub open spec fn insertion_index(pieces: Seq<Piece>, offset: int) -> int
    decreases pieces.len(),
{
    if pieces.len() == 0 || offset <= 0 {
        0
    } else {
        1 + insertion_index(pieces.drop_first(), offset - pieces[0].length)
    }
}

/// The pieces of a subtree, in document order.
pub open spec fn link_pieces(link: Option<Box<RBNode>>) -> Seq<Piece>
    decreases link,
{
    match link {
        None => Seq::empty(),
        Some(node) => node.pieces(),
    }
}

/// True when every node of the subtree caches the totals of its left
/// subtree rightly, and the totals of the subtree fit a `usize`.
pub open spec fn link_metadata_ok(link: Option<Box<RBNode>>) -> bool
    decreases link,
{
    match link {
        None => true,
        Some(node) => node.metadata_ok(),
    }
}

/// True when the subtree has a red root.
pub open spec fn link_is_red(link: Option<Box<RBNode>>) -> bool {
    match link {
        None => false,
        Some(node) => node.color == Color::Red,
    }
}

/// The number of black nodes on the leftmost path of the subtree.
pub open spec fn black_height(link: Option<Box<RBNode>>) -> nat
    decreases link,
{
    match link {
        None => 0,
        Some(node) => black_height(node.left) + if node.color == Color::Black {
            1nat
        } else {
            0nat
        },
    }
}

/// True when every path from the root of the subtree down to a missing
/// child passes the same number of black nodes.
pub open spec fn balanced(link: Option<Box<RBNode>>) -> bool
    decreases link,
{
    match link {
        None => true,
        Some(node) => balanced(node.left) && balanced(node.right) && black_height(node.left)
            == black_height(node.right),
    }
}

/// True when no red node of the subtree has a red child.
pub open spec fn no_red_red(link: Option<Box<RBNode>>) -> bool
    decreases link,
{
    match link {
        None => true,
        Some(node) => no_red_red(node.left) && no_red_red(node.right) && (node.color
            == Color::Red ==> !link_is_red(node.left) && !link_is_red(node.right)),
    }
}

/// True when no red node below the root of the subtree has a red child.
pub open spec fn no_red_red_below(link: Option<Box<RBNode>>) -> bool {
    match link {
        None => true,
        Some(node) => no_red_red(node.left) && no_red_red(node.right),
    }
}

/// The total length of a concatenation is that of its parts.
pub proof fn lemma_total_length_concat(a: Seq<Piece>, b: Seq<Piece>)
    ensures
        total_length(a + b) == total_length(a) + total_length(b),
    decreases b.len(),
{
    if b.len() == 0 {
        assert(a + b =~= a);
    } else {
        assert((a + b).drop_last() =~= a + b.drop_last());
        lemma_total_length_concat(a, b.drop_last());
    }
}

/// The line breaks of a concatenation are those of its parts.
pub proof fn lemma_total_line_breaks_concat(a: Seq<Piece>, b: Seq<Piece>)
    ensures
        total_line_breaks(a + b) == total_line_breaks(a) + total_line_breaks(b),
    decreases b.len(),
{
    if b.len() == 0 {
        assert(a + b =~= a);
    } else {
        assert((a + b).drop_last() =~= a + b.drop_last());
        lemma_total_line_breaks_concat(a, b.drop_last());
    }
}

/// The totals of a single piece.
pub proof fn lemma_total_single(piece: Piece)
    ensures
        total_length(seq![piece]) == piece.length,
        total_line_breaks(seq![piece]) == piece.line_break_count,
{
    let single = seq![piece];
    assert(single.drop_last() =~= Seq::<Piece>::empty());
    assert(total_length(single.drop_last()) == 0);
    assert(total_line_breaks(single.drop_last()) == 0);
    assert(single.last() == piece);
}

/// The totals of the three parts of a subtree add up.
pub proof fn lemma_total_three(a: Seq<Piece>, piece: Piece, b: Seq<Piece>)
    ensures
        total_length(a + seq![piece] + b) == total_length(a) + piece.length + total_length(b),
        total_line_breaks(a + seq![piece] + b) == total_line_breaks(a) + piece.line_break_count
            + total_line_breaks(b),
{
    lemma_total_single(piece);
    lemma_total_length_concat(a, seq![piece]);
    lemma_total_length_concat(a + seq![piece], b);
    lemma_total_line_breaks_concat(a, seq![piece]);
    lemma_total_line_breaks_concat(a + seq![piece], b);
}

/// `index_at_offset` in a concatenation: in the first part while the
/// offset lies in it, else in the second part.
pub proof fn lemma_index_at_offset_concat(a: Seq<Piece>, b: Seq<Piece>, offset: int)
    ensures
        index_at_offset(a + b, offset) == if offset < total_length(a) {
            index_at_offset(a, offset)
        } else {
            a.len() + index_at_offset(b, offset - total_length(a))
        },
        0 <= offset < total_length(a) ==> index_at_offset(a, offset) < a.len(),
    decreases a.len(),
{
    if a.len() == 0 {
        assert(a + b =~= b);
    } else {
        let rest = a.drop_first();
        assert(a =~= seq![a[0]] + rest);
        lemma_total_single(a[0]);
        lemma_total_length_concat(seq![a[0]], rest);
        assert((a + b).drop_first() =~= rest + b);
        lemma_index_at_offset_concat(rest, b, offset - a[0].length);
    }
}

/// `index_at_line_break` in a concatenation: in the first part while the
/// line break lies in it, else in the second part.
pub proof fn lemma_index_at_line_break_concat(a: Seq<Piece>, b: Seq<Piece>, line_break: int)
    ensures
        index_at_line_break(a + b, line_break) == if line_break < total_line_breaks(a) {
            index_at_line_break(a, line_break)
        } else {
            a.len() + index_at_line_break(b, line_break - total_line_breaks(a))
        },
        0 <= line_break < total_line_breaks(a) ==> index_at_line_break(a, line_break) < a.len(),
    decreases a.len(),
{
    if a.len() == 0 {
        assert(a + b =~= b);
    } else {
        let rest = a.drop_first();
        assert(a =~= seq![a[0]] + rest);
        lemma_total_single(a[0]);
        lemma_total_line_breaks_concat(seq![a[0]], rest);
        assert((a + b).drop_first() =~= rest + b);
        lemma_index_at_line_break_concat(rest, b, line_break - a[0].line_break_count);
    }
}

/// `insertion_index` in a concatenation: in the first part while the
/// offset lies in it or at its end, else in the second part.
pub proof fn lemma_insertion_index_concat(a: Seq<Piece>, b: Seq<Piece>, offset: int)
    ensures
        insertion_index(a + b, offset) == if offset <= total_length(a) {
            insertion_index(a, offset)
        } else {
            a.len() + insertion_index(b, offset - total_length(a))
        },
        0 <= insertion_index(a, offset) <= a.len(),
    decreases a.len(),
{
    if a.len() == 0 {
        assert(a + b =~= b);
    } else if offset <= 0 {
    } else {
        let rest = a.drop_first();
        assert(a =~= seq![a[0]] + rest);
        lemma_total_single(a[0]);
        lemma_total_length_concat(seq![a[0]], rest);
        assert((a + b).drop_first() =~= rest + b);
        lemma_insertion_index_concat(rest, b, offset - a[0].length);
    }
}

/// The totals after one more piece was put in.
pub proof fn lemma_total_insert(pieces: Seq<Piece>, index: int, piece: Piece)
    requires
        0 <= index <= pieces.len(),
    ensures
        total_length(pieces.insert(index, piece)) == total_length(pieces) + piece.length,
        total_line_breaks(pieces.insert(index, piece)) == total_line_breaks(pieces)
            + piece.line_break_count,
{
    let a = pieces.take(index);
    let b = pieces.skip(index);
    assert(pieces =~= a + b);
    assert(pieces.insert(index, piece) =~= a + seq![piece] + b);
    lemma_total_three(a, piece, b);
    lemma_total_length_concat(a, b);
    lemma_total_line_breaks_concat(a, b);
}

/// Where `index_at_offset` points: at the piece, if there is one, that
/// begins at or before the offset and ends behind it.
pub proof fn lemma_index_at_offset(pieces: Seq<Piece>, offset: int)
    requires
        0 <= offset,
    ensures
        0 <= index_at_offset(pieces, offset) <= pieces.len(),
        index_at_offset(pieces, offset) < pieces.len() <==> offset < total_length(pieces),
        index_at_offset(pieces, offset) < pieces.len() ==> ({
            let index = index_at_offset(pieces, offset);
            total_length(pieces.take(index)) <= offset < total_length(pieces.take(index))
                + pieces[index].length
        }),
    decreases pieces.len(),
{
    if pieces.len() == 0 {
    } else {
        let first = seq![pieces[0]];
        let rest = pieces.drop_first();
        assert(pieces =~= first + rest);
        lemma_total_single(pieces[0]);
        lemma_total_length_concat(first, rest);
        if offset < pieces[0].length {
            assert(pieces.take(0) =~= Seq::<Piece>::empty());
        } else {
            let shifted = offset - pieces[0].length;
            lemma_index_at_offset(rest, shifted);
            let i = index_at_offset(rest, shifted);
            if i < rest.len() {
                assert(pieces.take(i + 1) =~= first + rest.take(i));
                lemma_total_length_concat(first, rest.take(i));
            }
        }
    }
}

/// The piece that begins at or before an offset and ends behind it is the
/// one that `index_at_offset` points at.
pub proof fn lemma_index_at_offset_is(pieces: Seq<Piece>, offset: int, index: int)
    requires
        0 <= index < pieces.len(),
        total_length(pieces.take(index)) <= offset < total_length(pieces.take(index))
            + pieces[index].length,
    ensures
        index_at_offset(pieces, offset) == index,
{
    assert(pieces =~= pieces.take(index) + pieces.skip(index));
    lemma_index_at_offset_concat(pieces.take(index), pieces.skip(index), offset);
}

/// Where `index_at_line_break` points: at the piece, if there is one,
/// before which at most that many line breaks go by, and at whose end more.
pub proof fn lemma_index_at_line_break(pieces: Seq<Piece>, line_break: int)
    requires
        0 <= line_break,
    ensures
        0 <= index_at_line_break(pieces, line_break) <= pieces.len(),
        index_at_line_break(pieces, line_break) < pieces.len() <==> line_break
            < total_line_breaks(pieces),
        index_at_line_break(pieces, line_break) < pieces.len() ==> ({
            let index = index_at_line_break(pieces, line_break);
            total_line_breaks(pieces.take(index)) <= line_break < total_line_breaks(
                pieces.take(index),
            ) + pieces[index].line_break_count
        }),
    decreases pieces.len(),
{
    if pieces.len() == 0 {
    } else {
        let first = seq![pieces[0]];
        let rest = pieces.drop_first();
        assert(pieces =~= first + rest);
        lemma_total_single(pieces[0]);
        lemma_total_line_breaks_concat(first, rest);
        if line_break < pieces[0].line_break_count {
            assert(pieces.take(0) =~= Seq::<Piece>::empty());
        } else {
            let shifted = line_break - pieces[0].line_break_count;
            lemma_index_at_line_break(rest, shifted);
            let i = index_at_line_break(rest, shifted);
            if i < rest.len() {
                assert(pieces.take(i + 1) =~= first + rest.take(i));
                lemma_total_line_breaks_concat(first, rest.take(i));
            }
        }
    }
}

/// Where `insertion_index` points: behind the pieces that begin before
/// the offset, and no further.
pub proof fn lemma_insertion_index(pieces: Seq<Piece>, offset: int)
    ensures
        0 <= insertion_index(pieces, offset) <= pieces.len(),
        insertion_index(pieces, offset) < pieces.len() ==> offset <= total_length(
            pieces.take(insertion_index(pieces, offset)),
        ),
        forall|j: int|
            0 <= j < insertion_index(pieces, offset) ==> total_length(#[trigger] pieces.take(j))
                < offset,
    decreases pieces.len(),
{
    if pieces.len() == 0 || offset <= 0 {
        assert(pieces.take(0) =~= Seq::<Piece>::empty());
    } else {
        let first = seq![pieces[0]];
        let rest = pieces.drop_first();
        assert(pieces =~= first + rest);
        lemma_total_single(pieces[0]);
        let shifted = offset - pieces[0].length;
        lemma_insertion_index(rest, shifted);
        let i = insertion_index(rest, shifted);
        assert forall|j: int| 0 <= j < i + 1 implies total_length(#[trigger] pieces.take(j))
            < offset by {
            if j == 0 {
                assert(pieces.take(0) =~= Seq::<Piece>::empty());
            } else {
                assert(pieces.take(j) =~= first + rest.take(j - 1));
                lemma_total_length_concat(first, rest.take(j - 1));
            }
        }
        if i < rest.len() {
            assert(pieces.take(i + 1) =~= first + rest.take(i));
            lemma_total_length_concat(first, rest.take(i));
        }
    }
}

/// The totals of the first pieces are at most the totals of all.
pub proof fn lemma_total_take(pieces: Seq<Piece>, count: int)
    requires
        0 <= count <= pieces.len(),
    ensures
        total_length(pieces.take(count)) <= total_length(pieces),
        total_line_breaks(pieces.take(count)) <= total_line_breaks(pieces),
{
    assert(pieces =~= pieces.take(count) + pieces.skip(count));
    lemma_total_length_concat(pieces.take(count), pieces.skip(count));
    lemma_total_line_breaks_concat(pieces.take(count), pieces.skip(count));
}

/// How a location in one of the three parts of a subtree is a location in
/// the subtree.
proof fn lemma_location_in_parts(left: Seq<Piece>, piece: Piece, right: Seq<Piece>, index: int)
    requires
        0 <= index < left.len() + 1 + right.len(),
    ensures
        index < left.len() ==> (left + seq![piece] + right)[index] == left[index] && (left
            + seq![piece] + right).take(index) == left.take(index),
        index == left.len() ==> (left + seq![piece] + right)[index] == piece && (left
            + seq![piece] + right).take(index) == left,
        index > left.len() ==> (left + seq![piece] + right)[index] == right[index - left.len() - 1]
            && total_length((left + seq![piece] + right).take(index)) == total_length(left)
            + piece.length + total_length(right.take(index - left.len() - 1))
            && total_line_breaks((left + seq![piece] + right).take(index)) == total_line_breaks(
            left,
        ) + piece.line_break_count + total_line_breaks(right.take(index - left.len() - 1)),
{
    let all = left + seq![piece] + right;
    if index < left.len() {
        assert(all.take(index) =~= left.take(index));
    } else if index == left.len() {
        assert(all.take(index) =~= left);
    } else {
        let j = index - left.len() - 1;
        assert(all.take(index) =~= left + seq![piece] + right.take(j));
        lemma_total_three(left, piece, right.take(j));
    }
}

/// Where an offset falls in a subtree: in the left part, in the piece of
/// the root, or in the right part.
proof fn lemma_offset_in_parts(left: Seq<Piece>, piece: Piece, right: Seq<Piece>, offset: int)
    requires
        0 <= offset,
    ensures
        offset < total_length(left) ==> index_at_offset(left + seq![piece] + right, offset)
            == index_at_offset(left, offset) && index_at_offset(left, offset) < left.len(),
        total_length(left) <= offset < total_length(left) + piece.length ==> index_at_offset(
            left + seq![piece] + right,
            offset,
        ) == left.len(),
        total_length(left) + piece.length <= offset ==> index_at_offset(
            left + seq![piece] + right,
            offset,
        ) == left.len() + 1 + index_at_offset(right, offset - total_length(left) - piece.length),
{
    let tail = seq![piece] + right;
    assert(left + tail =~= left + seq![piece] + right);
    assert(tail.drop_first() =~= right);
    lemma_index_at_offset_concat(left, tail, offset);
}

/// Where a line break falls in a subtree: in the left part, in the piece
/// of the root, or in the right part.
proof fn lemma_line_break_in_parts(
    left: Seq<Piece>,
    piece: Piece,
    right: Seq<Piece>,
    line_break: int,
)
    requires
        0 <= line_break,
    ensures
        line_break < total_line_breaks(left) ==> index_at_line_break(
            left + seq![piece] + right,
            line_break,
        ) == index_at_line_break(left, line_break) && index_at_line_break(left, line_break)
            < left.len(),
        total_line_breaks(left) <= line_break < total_line_breaks(left) + piece.line_break_count
            ==> index_at_line_break(left + seq![piece] + right, line_break) == left.len(),
        total_line_breaks(left) + piece.line_break_count <= line_break ==> index_at_line_break(
            left + seq![piece] + right,
            line_break,
        ) == left.len() + 1 + index_at_line_break(
            right,
            line_break - total_line_breaks(left) - piece.line_break_count,
        ),
{
    let tail = seq![piece] + right;
    assert(left + tail =~= left + seq![piece] + right);
    assert(tail.drop_first() =~= right);
    lemma_index_at_line_break_concat(left, tail, line_break);
}

/// The totals after one piece was exchanged for another.
pub proof fn lemma_total_update(pieces: Seq<Piece>, index: int, piece: Piece)
    requires
        0 <= index < pieces.len(),
    ensures
        total_length(pieces.update(index, piece)) == total_length(pieces) - pieces[index].length
            + piece.length,
        total_line_breaks(pieces.update(index, piece)) == total_line_breaks(pieces)
            - pieces[index].line_break_count + piece.line_break_count,
{
    let a = pieces.take(index);
    let b = pieces.skip(index + 1);
    assert(pieces =~= a + seq![pieces[index]] + b);
    assert(pieces.update(index, piece) =~= a + seq![piece] + b);
    lemma_total_three(a, pieces[index], b);
    lemma_total_three(a, piece, b);
}

/// The totals after one piece was taken out.
pub proof fn lemma_total_remove(pieces: Seq<Piece>, index: int)
    requires
        0 <= index < pieces.len(),
    ensures
        total_length(pieces.remove(index)) == total_length(pieces) - pieces[index].length,
        total_line_breaks(pieces.remove(index)) == total_line_breaks(pieces)
            - pieces[index].line_break_count,
{
    let a = pieces.take(index);
    let b = pieces.skip(index + 1);
    assert(pieces =~= a + seq![pieces[index]] + b);
    assert(pieces.remove(index) =~= a + b);
    lemma_total_three(a, pieces[index], b);
    lemma_total_length_concat(a, b);
    lemma_total_line_breaks_concat(a, b);
}

/// How taking a piece out of one of the three parts of a subtree takes it
/// out of the subtree.
proof fn lemma_remove_in_parts(left: Seq<Piece>, piece: Piece, right: Seq<Piece>, index: int)
    requires
        0 <= index < left.len() + 1 + right.len(),
    ensures
        index < left.len() ==> (left + seq![piece] + right).remove(index) == left.remove(index)
            + seq![piece] + right,
        index == left.len() ==> (left + seq![piece] + right).remove(index) == left + right,
        index > left.len() ==> (left + seq![piece] + right).remove(index) == left + seq![piece]
            + right.remove(index - left.len() - 1),
        total_length((left + seq![piece] + right).remove(index)) <= total_length(
            left + seq![piece] + right,
        ),
        total_line_breaks((left + seq![piece] + right).remove(index)) <= total_line_breaks(
            left + seq![piece] + right,
        ),
{
    let all = left + seq![piece] + right;
    lemma_total_remove(all, index);
    if index < left.len() {
        assert(all.remove(index) =~= left.remove(index) + seq![piece] + right);
    } else if index == left.len() {
        assert(all.remove(index) =~= left + right);
    } else {
        assert(all.remove(index) =~= left + seq![piece] + right.remove(index - left.len() - 1));
    }
}

/// True when a piece of `pieces` begins at the byte offset `offset`, or
/// all of them end there.
pub open spec fn piece_starts_at(pieces: Seq<Piece>, offset: int) -> bool {
    exists|k: int| 0 <= k <= pieces.len() && #[trigger] total_length(pieces.take(k)) == offset
}

/// The total length of the first pieces grows with their number.
pub proof fn lemma_total_take_monotonic(pieces: Seq<Piece>, fewer: int, more: int)
    requires
        0 <= fewer <= more <= pieces.len(),
    ensures
        total_length(pieces.take(fewer)) <= total_length(pieces.take(more)),
{
    assert(pieces.take(more).take(fewer) =~= pieces.take(fewer));
    lemma_total_take(pieces.take(more), fewer);
}

/// A piece put at the offset at which the piece at `index` begins, where
/// the piece in front of that one is not empty, goes to `index`.
pub proof fn lemma_insertion_index_is(pieces: Seq<Piece>, offset: int, index: int)
    requires
        0 <= index <= pieces.len(),
        total_length(pieces.take(index)) == offset,
        index > 0 ==> total_length(pieces.take(index - 1)) < offset,
    ensures
        insertion_index(pieces, offset) == index,
{
    let front = pieces.take(index);
    let back = pieces.skip(index);
    assert(pieces =~= front + back);
    lemma_insertion_index_concat(front, back, offset);
    lemma_insertion_index(front, offset);
    let found = insertion_index(front, offset);
    if found < front.len() {
        assert(front.take(found) =~= pieces.take(found));
        lemma_total_take_monotonic(pieces, found, index - 1);
    }
}

/// The piece that covers the byte at the offset at which a piece that is
/// not empty begins is that piece.
pub proof fn lemma_index_at_piece_start(pieces: Seq<Piece>, index: int)
    requires
        0 <= index < pieces.len(),
        pieces[index].length > 0,
    ensures
        index_at_offset(pieces, total_length(pieces.take(index)) as int) == index,
{
    lemma_index_at_offset_is(pieces, total_length(pieces.take(index)) as int, index);
}

/// How putting a piece into one of the parts of a subtree puts it into
/// the subtree.
proof fn lemma_insert_in_parts(
    left: Seq<Piece>,
    piece: Piece,
    right: Seq<Piece>,
    index: int,
    new_piece: Piece,
)
    requires
        0 <= index <= left.len() + 1 + right.len(),
    ensures
        index <= left.len() ==> (left + seq![piece] + right).insert(index, new_piece)
            == left.insert(index, new_piece) + seq![piece] + right,
        index > left.len() ==> (left + seq![piece] + right).insert(index, new_piece) == left
            + seq![piece] + right.insert(index - left.len() - 1, new_piece),
{
    let all = left + seq![piece] + right;
    if index <= left.len() {
        assert(all.insert(index, new_piece) =~= left.insert(index, new_piece) + seq![piece]
            + right);
    } else {
        assert(all.insert(index, new_piece) =~= left + seq![piece] + right.insert(
            index - left.len() - 1,
            new_piece,
        ));
    }
}

/// Where a piece begins at `start` and another one, or the end, lies at
/// `end` behind it, the piece at `start` ends at or before `end`, and
/// without it the pieces behind it begin that much earlier.
pub proof fn lemma_remove_at_start(pieces: Seq<Piece>, start: int, end: int)
    requires
        forall|i: int| 0 <= i < pieces.len() ==> (#[trigger] pieces[i]).length > 0,
        piece_starts_at(pieces, start),
        piece_starts_at(pieces, end),
        start < end,
    ensures
        0 <= index_at_offset(pieces, start) < pieces.len(),
        total_length(pieces.take(index_at_offset(pieces, start))) == start,
        pieces[index_at_offset(pieces, start)].length <= end - start,
        piece_starts_at(pieces.remove(index_at_offset(pieces, start)), start),
        piece_starts_at(
            pieces.remove(index_at_offset(pieces, start)),
            end - pieces[index_at_offset(pieces, start)].length,
        ),
{
    let first = choose|k: int|
        0 <= k <= pieces.len() && #[trigger] total_length(pieces.take(k)) == start;
    let second = choose|k: int|
        0 <= k <= pieces.len() && #[trigger] total_length(pieces.take(k)) == end;
    if second <= first {
        lemma_total_take_monotonic(pieces, second, first);
    }
    assert(first < second);
    lemma_index_at_piece_start(pieces, first);
    lemma_total_take_monotonic(pieces, first + 1, second);
    assert(pieces.take(first + 1) =~= pieces.take(first).push(pieces[first]));
    assert(pieces.take(first + 1).drop_last() =~= pieces.take(first));
    let after = pieces.remove(first);
    assert(after.take(first) =~= pieces.take(first));
    assert(after.take(second - 1) =~= pieces.take(second).remove(first));
    lemma_total_remove(pieces.take(second), first);
}

/// The pieces of a subtree whose right child has a left child, put
/// together around the piece of that grandchild, and the totals of the two
/// sides.
proof fn lemma_regroup_right(
    a: Seq<Piece>,
    p: Piece,
    b: Seq<Piece>,
    m: Piece,
    c: Seq<Piece>,
    q: Piece,
    d: Seq<Piece>,
)
    ensures
        a + seq![p] + ((b + seq![m] + c) + seq![q] + d) == (a + seq![p] + b) + seq![m] + (c
            + seq![q] + d),
        total_length(a + seq![p] + b) <= total_length((a + seq![p] + b) + seq![m] + (c + seq![q]
            + d)),
        total_length(c + seq![q] + d) <= total_length((a + seq![p] + b) + seq![m] + (c + seq![q]
            + d)),
        total_line_breaks(a + seq![p] + b) <= total_line_breaks(
            (a + seq![p] + b) + seq![m] + (c + seq![q] + d),
        ),
        total_line_breaks(c + seq![q] + d) <= total_line_breaks(
            (a + seq![p] + b) + seq![m] + (c + seq![q] + d),
        ),
{
    assert(a + seq![p] + ((b + seq![m] + c) + seq![q] + d) =~= (a + seq![p] + b) + seq![m] + (c
        + seq![q] + d));
    lemma_total_three(a + seq![p] + b, m, c + seq![q] + d);
}

/// The pieces of a subtree whose left child has a right child, put
/// together around the piece of that grandchild, and the totals of the two
/// sides.
proof fn lemma_regroup_left(
    a: Seq<Piece>,
    p: Piece,
    b: Seq<Piece>,
    m: Piece,
    c: Seq<Piece>,
    q: Piece,
    d: Seq<Piece>,
)
    ensures
        (a + seq![p] + (b + seq![m] + c)) + seq![q] + d == (a + seq![p] + b) + seq![m] + (c
            + seq![q] + d),
        total_length(a + seq![p] + b) <= total_length((a + seq![p] + b) + seq![m] + (c + seq![q]
            + d)),
        total_length(c + seq![q] + d) <= total_length((a + seq![p] + b) + seq![m] + (c + seq![q]
            + d)),
        total_line_breaks(a + seq![p] + b) <= total_line_breaks(
            (a + seq![p] + b) + seq![m] + (c + seq![q] + d),
        ),
        total_line_breaks(c + seq![q] + d) <= total_line_breaks(
            (a + seq![p] + b) + seq![m] + (c + seq![q] + d),
        ),
{
    assert((a + seq![p] + (b + seq![m] + c)) + seq![q] + d =~= (a + seq![p] + b) + seq![m] + (c
        + seq![q] + d));
    lemma_total_three(a + seq![p] + b, m, c + seq![q] + d);
}

/// Where `place` falls in a subtree: in the left part while it lies in it
/// or at its end, else in the right part.
proof fn lemma_place_index(left: Seq<Piece>, piece: Piece, right: Seq<Piece>, place: Place)
    ensures
        0 <= place_index(left + seq![piece] + right, place) <= (left + seq![piece] + right).len(),
        match place {
            Place::End => place_index(left + seq![piece] + right, place) == left.len() + 1
                + place_index(right, place),
            Place::Offset(offset) => if offset <= total_length(left) {
                place_index(left + seq![piece] + right, place) == place_index(left, place)
                    && place_index(left, place) <= left.len()
            } else {
                let rest = offset - total_length(left) - piece.length;
                let right_place = Place::Offset(
                    if rest > 0 {
                        rest as usize
                    } else {
                        0usize
                    },
                );
                place_index(left + seq![piece] + right, place) == left.len() + 1 + place_index(
                    right,
                    right_place,
                )
            },
        },
{
    let tail = seq![piece] + right;
    assert(left + tail =~= left + seq![piece] + right);
    assert(tail.drop_first() =~= right);
    match place {
        Place::End => {},
        Place::Offset(offset) => {
            lemma_insertion_index_concat(left, tail, offset as int);
            let rest = offset - total_length(left) - piece.length;
            lemma_insertion_index_concat(right, Seq::empty(), rest);
            lemma_insertion_index_concat(right, Seq::empty(), 0);
        },
    }
}

impl RBNode {
    /// The pieces of the node and its subtrees, in document order.
    pub open spec fn pieces(&self) -> Seq<Piece>
        decreases self,
    {
        link_pieces(self.left) + seq![self.piece] + link_pieces(self.right)
    }

    /// True when both subtrees cache their totals rightly and the totals of
    /// the node and its subtrees fit a `usize`.
    pub open spec fn children_ok(&self) -> bool {
        &&& link_metadata_ok(self.left)
        &&& link_metadata_ok(self.right)
        &&& total_length(self.pieces()) <= usize::MAX
        &&& total_line_breaks(self.pieces()) <= usize::MAX
    }

    /// True when the node and every node below it cache the totals of
    /// their left subtrees rightly, and the totals of the node and its
    /// subtrees fit a `usize`.
    pub open spec fn metadata_ok(&self) -> bool
        decreases self,
    {
        &&& self.left_subtree_length == total_length(link_pieces(self.left))
        &&& self.left_subtree_line_breaks == total_line_breaks(link_pieces(self.left))
        &&& link_metadata_ok(self.left)
        &&& link_metadata_ok(self.right)
        &&& total_length(self.pieces()) <= usize::MAX
        &&& total_line_breaks(self.pieces()) <= usize::MAX
    }

    /// Creates a red node without children.
    pub fn new(piece: Piece) -> (result: Self)
        ensures
            result == (RBNode {
                piece,
                color: Color::Red,
                left_subtree_length: 0,
                left_subtree_line_breaks: 0,
                left: None,
                right: None,
            }),
            result.metadata_ok(),
            result.pieces() == seq![piece],
    {
        proof {
            lemma_total_three(Seq::empty(), piece, Seq::empty());
            assert(Seq::<Piece>::empty() + seq![piece] + Seq::<Piece>::empty() =~= seq![piece]);
        }
        Self {
            piece,
            color: Color::Red,
            left_subtree_length: 0,
            left_subtree_line_breaks: 0,
            left: None,
            right: None,
        }
    }

    /// Creates a black node without children.
    pub fn new_black(piece: Piece) -> (result: Self)
        ensures
            result == (RBNode {
                piece,
                color: Color::Black,
                left_subtree_length: 0,
                left_subtree_line_breaks: 0,
                left: None,
                right: None,
            }),
            result.metadata_ok(),
            result.pieces() == seq![piece],
    {
        let mut node = Self::new(piece);
        node.color = Color::Black;
        node
    }

    /// True when the node is red.
    pub fn is_red(&self) -> (result: bool)
        ensures
            result == (self.color == Color::Red),
    {
        self.color == Color::Red
    }

    /// True when the node is black.
    pub fn is_black(&self) -> (result: bool)
        ensures
            result == (self.color == Color::Black),
    {
        self.color == Color::Black
    }

    /// Sets the cached totals of the left subtree from that subtree.
    pub fn update_metadata(&mut self)
        requires
            link_metadata_ok(old(self).left),
        ensures
            *final(self) == (RBNode {
                left_subtree_length: total_length(link_pieces(old(self).left)) as usize,
                left_subtree_line_breaks: total_line_breaks(link_pieces(old(self).left)) as usize,
                ..*old(self)
            }),
            old(self).children_ok() ==> final(self).metadata_ok(),
    {
        let (length, line_breaks) = match &self.left {
            Some(node) => (node.total_length(), node.total_line_breaks()),
            None => (0, 0),
        };
        self.left_subtree_length = length;
        self.left_subtree_line_breaks = line_breaks;
    }

    /// The total length in bytes of the pieces of the right subtree.
    pub fn right_subtree_length(&self) -> (result: usize)
        requires
            link_metadata_ok(self.right),
        ensures
            result == total_length(link_pieces(self.right)),
        decreases self, 0nat,
    {
        match &self.right {
            Some(node) => node.total_length(),
            None => 0,
        }
    }

    /// The total number of line breaks of the pieces of the right subtree.
    pub fn right_subtree_line_breaks(&self) -> (result: usize)
        requires
            link_metadata_ok(self.right),
        ensures
            result == total_line_breaks(link_pieces(self.right)),
        decreases self, 0nat,
    {
        match &self.right {
            Some(node) => node.total_line_breaks(),
            None => 0,
        }
    }

    /// The total length in bytes of the pieces of the node and its
    /// subtrees.
    pub fn total_length(&self) -> (result: usize)
        requires
            self.metadata_ok(),
        ensures
            result == total_length(self.pieces()),
        decreases self, 1nat,
    {
        proof {
            lemma_total_three(link_pieces(self.left), self.piece, link_pieces(self.right));
        }
        self.left_subtree_length + self.piece.length + self.right_subtree_length()
    }

    /// The total number of line breaks of the pieces of the node and its
    /// subtrees.
    pub fn total_line_breaks(&self) -> (result: usize)
        requires
            self.metadata_ok(),
        ensures
            result == total_line_breaks(self.pieces()),
        decreases self, 1nat,
    {
        proof {
            lemma_total_three(link_pieces(self.left), self.piece, link_pieces(self.right));
        }
        self.left_subtree_line_breaks + self.piece.line_break_count
            + self.right_subtree_line_breaks()
    }
}

impl Clone for RBNode {
    /// Copies the node and both subtrees.
    fn clone(&self) -> (result: Self)
        ensures
            result == *self,
        decreases self,
    {
        RBNode {
            piece: self.piece,
            color: self.color,
            left_subtree_length: self.left_subtree_length,
            left_subtree_line_breaks: self.left_subtree_line_breaks,
            left: match &self.left {
                Some(node) => Some(Box::new((&**node).clone())),
                None => None,
            },
            right: match &self.right {
                Some(node) => Some(Box::new((&**node).clone())),
                None => None,
            },
        }
    }
}

/// The index tree: the pieces of a document in document order.
#[derive(Debug)]
pub struct RBTree {
    /// The root node.
    pub root: Option<Box<RBNode>>,
    /// The number of nodes.
    pub size: usize,
}

impl View for RBTree {
    type V = Seq<Piece>;

    /// The pieces of the tree, in document order.
    open spec fn view(&self) -> Seq<Piece> {
        link_pieces(self.root)
    }
}

/// The number of nodes on the longest path from the root of the subtree
/// down to a missing child: the most steps that a descent can take.
pub open spec fn height(link: Option<Box<RBNode>>) -> nat
    decreases link,
{
    match link {
        None => 0,
        Some(node) => 1 + if height(node.left) >= height(node.right) {
            height(node.left)
        } else {
            height(node.right)
        },
    }
}

/// A red-black tree is shallow: no path is longer than twice its black
/// height, and one step more below a red root; and a tree of black height
/// `h` holds at least `2^h - 1` pieces. So a descent in a tree of `n`
/// pieces with a black root takes at most `2 * log2(n + 1)` steps.
pub proof fn lemma_height(link: Option<Box<RBNode>>)
    requires
        balanced(link),
        no_red_red(link),
    ensures
        height(link) <= 2 * black_height(link) + if link_is_red(link) {
            1nat
        } else {
            0nat
        },
        pow2(black_height(link)) <= link_pieces(link).len() + 1,
    decreases link,
{
    lemma2_to64();
    match link {
        None => {},
        Some(node) => {
            lemma_height(node.left);
            lemma_height(node.right);
            lemma_pow2_unfold(black_height(node.left) + 1);
            assert(node.pieces().len() == link_pieces(node.left).len() + 1 + link_pieces(
                node.right,
            ).len());
        },
    }
}

/// A piece of the tree together with what lies in front of it.
#[derive(Debug, Clone, Copy)]
pub struct PieceLocation {
    /// The piece.
    pub piece: Piece,
    /// The byte offset in the document at which the piece begins: the
    /// total length of the pieces in front of it.
    pub start: usize,
    /// The number of line breaks in the pieces in front of it.
    pub line_breaks_before: usize,
}

/// True when `location` is the piece at `index` of `pieces` with the
/// totals of the pieces in front of it.
pub open spec fn is_location(pieces: Seq<Piece>, index: int, location: PieceLocation) -> bool {
    &&& 0 <= index < pieces.len()
    &&& location.piece == pieces[index]
    &&& location.start == total_length(pieces.take(index))
    &&& location.line_breaks_before == total_line_breaks(pieces.take(index))
}

/// Where a new piece goes.
#[derive(Debug, Clone, Copy)]
enum Place {
    /// Behind all pieces.
    End,
    /// In front of the first piece that begins at or behind this offset.
    Offset(usize),
}

/// The index at which a piece put at `place` belongs.
spec fn place_index(pieces: Seq<Piece>, place: Place) -> int {
    match place {
        Place::End => pieces.len() as int,
        Place::Offset(offset) => insertion_index(pieces, offset as int),
    }
}

impl RBTree {
    /// True when the tree is a red-black tree with a black root, every node
    /// caches the totals of its left subtree rightly, the totals fit a
    /// `usize`, and `size` is the number of nodes.
    pub open spec fn wf(&self) -> bool {
        &&& link_metadata_ok(self.root)
        &&& no_red_red(self.root)
        &&& balanced(self.root)
        &&& !link_is_red(self.root)
        &&& self.size == self@.len()
    }

    /// A tree that is in order is shallow: with `n` pieces, no descent
    /// takes more than `2 * log2(n + 1)` steps.
    pub proof fn lemma_shallow(&self)
        requires
            self.wf(),
        ensures
            height(self.root) <= 2 * black_height(self.root),
            pow2(black_height(self.root)) <= self@.len() + 1,
    {
        lemma_height(self.root);
    }

    /// True when the subtree has a red root.
    fn is_red(node: &Option<Box<RBNode>>) -> (result: bool)
        ensures
            result == link_is_red(*node),
    {
        match node {
            Some(node) => node.is_red(),
            None => false,
        }
    }

    /// True when the root of the subtree has a red left child.
    fn is_red_left_child(node: &Option<Box<RBNode>>) -> (result: bool)
        ensures
            result == (node is Some && link_is_red(node.unwrap().left)),
    {
        match node {
            Some(node) => Self::is_red(&node.left),
            None => false,
        }
    }

    /// True when the root of the subtree has a red right child.
    fn is_red_right_child(node: &Option<Box<RBNode>>) -> (result: bool)
        ensures
            result == (node is Some && link_is_red(node.unwrap().right)),
    {
        match node {
            Some(node) => Self::is_red(&node.right),
            None => false,
        }
    }

    /// Makes the right child the root of the subtree. The new root takes
    /// the color of the old one, which turns red.
    fn rotate_left(mut node: Box<RBNode>) -> (result: Box<RBNode>)
        requires
            node.right is Some,
            node.children_ok(),
        ensures
            result.metadata_ok(),
            result.pieces() == node.pieces(),
            result.color == node.color,
            result.piece == node.right.unwrap().piece,
            result.right == node.right.unwrap().right,
            result.left is Some,
            result.left.unwrap().color == Color::Red,
            result.left.unwrap().piece == node.piece,
            result.left.unwrap().left == node.left,
            result.left.unwrap().right == node.right.unwrap().left,
    {
        let ghost a = link_pieces(node.left);
        let ghost b = link_pieces(node.right.unwrap().left);
        let ghost c = link_pieces(node.right.unwrap().right);
        let ghost p = node.piece;
        let ghost q = node.right.unwrap().piece;
        proof {
            assert(node.pieces() =~= a + seq![p] + b + seq![q] + c);
            lemma_total_three(a, p, b);
            lemma_total_three(a + seq![p] + b, q, c);
        }
        let mut new_root = node.right.take().unwrap();
        node.right = new_root.left.take();
        new_root.color = node.color;
        node.color = Color::Red;
        node.update_metadata();
        new_root.left = Some(node);
        new_root.update_metadata();
        proof {
            assert(new_root.pieces() =~= a + seq![p] + b + seq![q] + c);
        }
        new_root
    }

    /// Makes the left child the root of the subtree. The new root takes
    /// the color of the old one, which turns red.
    fn rotate_right(mut node: Box<RBNode>) -> (result: Box<RBNode>)
        requires
            node.left is Some,
            node.children_ok(),
        ensures
            result.metadata_ok(),
            result.pieces() == node.pieces(),
            result.color == node.color,
            result.piece == node.left.unwrap().piece,
            result.left == node.left.unwrap().left,
            result.right is Some,
            result.right.unwrap().color == Color::Red,
            result.right.unwrap().piece == node.piece,
            result.right.unwrap().left == node.left.unwrap().right,
            result.right.unwrap().right == node.right,
    {
        let ghost a = link_pieces(node.left.unwrap().left);
        let ghost b = link_pieces(node.left.unwrap().right);
        let ghost c = link_pieces(node.right);
        let ghost p = node.left.unwrap().piece;
        let ghost q = node.piece;
        proof {
            assert(node.pieces() =~= a + seq![p] + b + seq![q] + c);
            lemma_total_three(b, q, c);
            lemma_total_three(a, p, b + seq![q] + c);
            assert(a + seq![p] + (b + seq![q] + c) =~= a + seq![p] + b + seq![q] + c);
        }
        let mut new_root = node.left.take().unwrap();
        node.left = new_root.right.take();
        new_root.color = node.color;
        node.color = Color::Red;
        node.update_metadata();
        new_root.right = Some(node);
        new_root.update_metadata();
        proof {
            assert(new_root.pieces() =~= a + seq![p] + b + seq![q] + c);
        }
        new_root
    }

    /// Turns the node red and both its children black.
    fn flip_colors(node: &mut Box<RBNode>)
        requires
            old(node).left is Some,
            old(node).right is Some,
        ensures
            final(node).color == Color::Red,
            final(node).piece == old(node).piece,
            final(node).left_subtree_length == old(node).left_subtree_length,
            final(node).left_subtree_line_breaks == old(node).left_subtree_line_breaks,
            final(node).left is Some,
            final(node).right is Some,
            *final(node).left.unwrap() == (RBNode {
                color: Color::Black,
                ..*old(node).left.unwrap()
            }),
            *final(node).right.unwrap() == (RBNode {
                color: Color::Black,
                ..*old(node).right.unwrap()
            }),
            final(node).pieces() == old(node).pieces(),
            old(node).metadata_ok() ==> final(node).metadata_ok(),
            no_red_red_below(old(node).left) && no_red_red_below(old(node).right) ==> no_red_red(
                Some(*final(node)),
            ),
            link_is_red(old(node).left) && link_is_red(old(node).right) && balanced(
                Some(*old(node)),
            ) ==> balanced(Some(*final(node))),
            link_is_red(old(node).left) && old(node).color == Color::Black ==> black_height(
                Some(*final(node)),
            ) == black_height(Some(*old(node))),
    {
        proof {
            reveal_with_fuel(no_red_red, 2);
            reveal_with_fuel(balanced, 2);
            reveal_with_fuel(black_height, 2);
        }
        node.color = Color::Red;
        match &mut node.left {
            Some(left) => {
                left.color = Color::Black;
            },
            None => {},
        }
        match &mut node.right {
            Some(right) => {
                right.color = Color::Black;
            },
            None => {},
        }
        proof {
            assert(node.left.unwrap().pieces() == old(node).left.unwrap().pieces());
            assert(node.right.unwrap().pieces() == old(node).right.unwrap().pieces());
            assert(link_pieces(node.left) == link_pieces(old(node).left));
            assert(link_pieces(node.right) == link_pieces(old(node).right));
            if old(node).metadata_ok() {
                assert(old(node).left.unwrap().metadata_ok());
                assert(old(node).right.unwrap().metadata_ok());
                assert(node.left.unwrap().metadata_ok());
                assert(node.right.unwrap().metadata_ok());
            }
        }
    }

    /// Restores the coloring at `node` after its left subtree took a new
    /// piece, and sets its cached totals.
    fn fix_left(mut node: Box<RBNode>) -> (result: Box<RBNode>)
        requires
            node.children_ok(),
            balanced(Some(node)),
            no_red_red_below(node.left),
            no_red_red(node.right),
            node.color == Color::Red ==> no_red_red(node.left),
        ensures
            result.metadata_ok(),
            result.pieces() == node.pieces(),
            balanced(Some(result)),
            black_height(Some(result)) == black_height(Some(node)),
            no_red_red_below(Some(result)),
            node.color == Color::Black ==> no_red_red(Some(result)),
    {
        proof {
            reveal_with_fuel(no_red_red, 3);
            reveal_with_fuel(balanced, 3);
            reveal_with_fuel(black_height, 3);
        }
        if node.color == Color::Black && Self::is_red(&node.left) {
            if Self::is_red_left_child(&node.left) {
                node = Self::rotate_right(node);
                Self::flip_colors(&mut node);
            } else if Self::is_red_right_child(&node.left) {
                let inner = node.left.take().unwrap();
                node.left = Some(Self::rotate_left(inner));
                node = Self::rotate_right(node);
                Self::flip_colors(&mut node);
            } else {
                node.update_metadata();
            }
        } else {
            node.update_metadata();
        }
        node
    }

    /// Restores the coloring at `node` after its right subtree took a new
    /// piece, and sets its cached totals.
    fn fix_right(mut node: Box<RBNode>) -> (result: Box<RBNode>)
        requires
            node.children_ok(),
            balanced(Some(node)),
            no_red_red(node.left),
            no_red_red_below(node.right),
            node.color == Color::Red ==> no_red_red(node.right),
        ensures
            result.metadata_ok(),
            result.pieces() == node.pieces(),
            balanced(Some(result)),
            black_height(Some(result)) == black_height(Some(node)),
            no_red_red_below(Some(result)),
            node.color == Color::Black ==> no_red_red(Some(result)),
    {
        proof {
            reveal_with_fuel(no_red_red, 3);
            reveal_with_fuel(balanced, 3);
            reveal_with_fuel(black_height, 3);
        }
        if node.color == Color::Black && Self::is_red(&node.right) {
            if Self::is_red_right_child(&node.right) {
                node = Self::rotate_left(node);
                Self::flip_colors(&mut node);
            } else if Self::is_red_left_child(&node.right) {
                let inner = node.right.take().unwrap();
                node.right = Some(Self::rotate_right(inner));
                node = Self::rotate_left(node);
                Self::flip_colors(&mut node);
            } else {
                node.update_metadata();
            }
        } else {
            node.update_metadata();
        }
        node
    }

    /// Tells whether `place` lies in the left subtree of `node`, and where
    /// it lies in the subtree that holds it.
    fn descend(node: &RBNode, place: Place) -> (result: (bool, Place))
        requires
            node.metadata_ok(),
        ensures
            0 <= place_index(node.pieces(), place) <= node.pieces().len(),
            result.0 ==> 0 <= place_index(link_pieces(node.left), result.1) <= link_pieces(
                node.left,
            ).len() && place_index(node.pieces(), place) == place_index(
                link_pieces(node.left),
                result.1,
            ),
            !result.0 ==> 0 <= place_index(link_pieces(node.right), result.1) <= link_pieces(
                node.right,
            ).len() && place_index(node.pieces(), place) == link_pieces(node.left).len() + 1
                + place_index(link_pieces(node.right), result.1),
    {
        proof {
            lemma_total_three(link_pieces(node.left), node.piece, link_pieces(node.right));
            lemma_place_index(link_pieces(node.left), node.piece, link_pieces(node.right), place);
            lemma_insertion_index(link_pieces(node.right), 0);
        }
        match place {
            Place::End => (false, Place::End),
            Place::Offset(offset) => {
                if offset <= node.left_subtree_length {
                    (true, place)
                } else {
                    let skipped = node.left_subtree_length + node.piece.length;
                    proof {
                        lemma_insertion_index(link_pieces(node.right), offset - skipped);
                    }
                    if offset > skipped {
                        (false, Place::Offset(offset - skipped))
                    } else {
                        (false, Place::Offset(0))
                    }
                }
            },
        }
    }

    /// Puts `piece` into the subtree at `place` and restores the coloring
    /// below the root of the subtree.
    fn insert_recursive(node: Option<Box<RBNode>>, piece: Piece, place: Place) -> (result: Box<
        RBNode,
    >)
        requires
            link_metadata_ok(node),
            no_red_red(node),
            balanced(node),
            total_length(link_pieces(node)) + piece.length <= usize::MAX,
            total_line_breaks(link_pieces(node)) + piece.line_break_count <= usize::MAX,
        ensures
            result.metadata_ok(),
            0 <= place_index(link_pieces(node), place) <= link_pieces(node).len(),
            result.pieces() == link_pieces(node).insert(
                place_index(link_pieces(node), place),
                piece,
            ),
            balanced(Some(result)),
            black_height(Some(result)) == black_height(node),
            no_red_red_below(Some(result)),
            !link_is_red(node) ==> no_red_red(Some(result)),
        decreases node,
    {
        let mut node = match node {
            None => {
                proof {
                    assert(Seq::<Piece>::empty().insert(0, piece) =~= seq![piece]);
                }
                return Box::new(RBNode::new(piece));
            },
            Some(node) => node,
        };
        let ghost before = node.pieces();
        let ghost left = link_pieces(node.left);
        let ghost right = link_pieces(node.right);
        let ghost index = place_index(before, place);
        let ghost height = black_height(Some(node));
        let (go_left, inner_place) = Self::descend(&node, place);
        proof {
            lemma_total_three(left, node.piece, right);
            lemma_total_insert(before, index, piece);
            lemma_insert_in_parts(left, node.piece, right, index, piece);
        }
        if go_left {
            let child = node.left.take();
            let new_child = Self::insert_recursive(child, piece, inner_place);
            node.left = Some(new_child);
            proof {
                assert(black_height(Some(node)) == height);
            }
            Self::fix_left(node)
        } else {
            let child = node.right.take();
            let new_child = Self::insert_recursive(child, piece, inner_place);
            node.right = Some(new_child);
            proof {
                assert(black_height(Some(node)) == height);
            }
            Self::fix_right(node)
        }
    }

    /// Puts `piece` into the tree at `place` and makes the root black.
    fn insert_in_place(&mut self, piece: Piece, place: Place)
        requires
            old(self).wf(),
            old(self).size < usize::MAX,
            total_length(old(self)@) + piece.length <= usize::MAX,
            total_line_breaks(old(self)@) + piece.line_break_count <= usize::MAX,
        ensures
            final(self).wf(),
            0 <= place_index(old(self)@, place) <= old(self)@.len(),
            final(self)@ == old(self)@.insert(place_index(old(self)@, place), piece),
    {
        let mut root = Self::insert_recursive(self.root.take(), piece, place);
        proof {
            assert(link_pieces(root.left) + seq![root.piece] + link_pieces(root.right)
                == root.pieces());
        }
        root.color = Color::Black;
        proof {
            assert(root.pieces() == link_pieces(root.left) + seq![root.piece] + link_pieces(
                root.right,
            ));
        }
        self.root = Some(root);
        self.size = self.size + 1;
    }

    /// Creates an empty tree.
    pub fn new() -> (result: Self)
        ensures
            result.wf(),
            result@ == Seq::<Piece>::empty(),
    {
        Self { root: None, size: 0 }
    }

    /// Creates a tree that holds `piece`.
    pub fn from_piece(piece: Piece) -> (result: Self)
        ensures
            result.wf(),
            result@ == seq![piece],
    {
        let mut tree = Self::new();
        tree.insert(piece);
        proof {
            assert(Seq::<Piece>::empty().push(piece) =~= seq![piece]);
        }
        tree
    }

    /// True when the tree holds no piece.
    pub fn is_empty(&self) -> (result: bool)
        ensures
            result == (self.root is None),
            self.wf() ==> result == (self@.len() == 0),
    {
        self.root.is_none()
    }

    /// The number of pieces.
    pub fn len(&self) -> (result: usize)
        ensures
            result == self.size,
            self.wf() ==> result == self@.len(),
    {
        self.size
    }

    /// The total length in bytes of all pieces.
    pub fn total_length(&self) -> (result: usize)
        requires
            link_metadata_ok(self.root),
        ensures
            result == total_length(self@),
    {
        match &self.root {
            Some(node) => node.total_length(),
            None => 0,
        }
    }

    /// The total number of line breaks of all pieces.
    pub fn total_line_breaks(&self) -> (result: usize)
        requires
            link_metadata_ok(self.root),
        ensures
            result == total_line_breaks(self@),
    {
        match &self.root {
            Some(node) => node.total_line_breaks(),
            None => 0,
        }
    }

    /// Puts `piece` behind all pieces of the tree.
    pub fn insert(&mut self, piece: Piece)
        requires
            old(self).wf(),
            old(self).size < usize::MAX,
            total_length(old(self)@) + piece.length <= usize::MAX,
            total_line_breaks(old(self)@) + piece.line_break_count <= usize::MAX,
        ensures
            final(self).wf(),
            final(self)@ == old(self)@.push(piece),
    {
        self.insert_in_place(piece, Place::End);
        proof {
            assert(old(self)@.insert(old(self)@.len() as int, piece) =~= old(self)@.push(piece));
        }
    }

    /// Puts `piece` at the byte offset `offset`: in front of the first
    /// piece that begins at or behind `offset`, or behind all pieces.
    pub fn insert_at(&mut self, offset: usize, piece: Piece)
        requires
            old(self).wf(),
            old(self).size < usize::MAX,
            total_length(old(self)@) + piece.length <= usize::MAX,
            total_line_breaks(old(self)@) + piece.line_break_count <= usize::MAX,
        ensures
            final(self).wf(),
            0 <= insertion_index(old(self)@, offset as int) <= old(self)@.len(),
            final(self)@ == old(self)@.insert(insertion_index(old(self)@, offset as int), piece),
    {
        self.insert_in_place(piece, Place::Offset(offset));
    }

    /// Finds the piece that covers the byte at `offset`.
    pub fn find_piece_at_offset(&self, offset: usize) -> (result: Option<&Piece>)
        requires
            link_metadata_ok(self.root),
        ensures
            result is Some <==> offset < total_length(self@),
            result is Some ==> 0 <= index_at_offset(self@, offset as int) < self@.len()
                && *result.unwrap() == self@[index_at_offset(self@, offset as int)],
    {
        Self::find_piece_at_offset_recursive(&self.root, offset)
    }

    /// Finds in the subtree the piece that covers the byte at `offset`,
    /// counted from the start of the subtree.
    fn find_piece_at_offset_recursive<'a>(node: &'a Option<Box<RBNode>>, offset: usize) -> (result:
        Option<&'a Piece>)
        requires
            link_metadata_ok(*node),
        ensures
            result is Some <==> offset < total_length(link_pieces(*node)),
            result is Some ==> 0 <= index_at_offset(link_pieces(*node), offset as int)
                < link_pieces(*node).len() && *result.unwrap() == link_pieces(
                *node,
            )[index_at_offset(link_pieces(*node), offset as int)],
        decreases node,
    {
        let node = match node {
            Some(node) => node,
            None => {
                return None;
            },
        };
        let ghost left = link_pieces(node.left);
        let ghost right = link_pieces(node.right);
        proof {
            lemma_total_three(left, node.piece, right);
            lemma_offset_in_parts(left, node.piece, right, offset as int);
        }
        if offset < node.left_subtree_length {
            Self::find_piece_at_offset_recursive(&node.left, offset)
        } else if offset - node.left_subtree_length < node.piece.length {
            Some(&node.piece)
        } else {
            let found = Self::find_piece_at_offset_recursive(
                &node.right,
                offset - node.left_subtree_length - node.piece.length,
            );
            found
        }
    }

    /// Finds the piece that covers the byte at `offset`, with the byte
    /// offset at which it begins and the number of line breaks in front of
    /// it.
    pub fn locate_offset(&self, offset: usize) -> (result: Option<PieceLocation>)
        requires
            link_metadata_ok(self.root),
        ensures
            result is Some <==> offset < total_length(self@),
            result is Some ==> is_location(
                self@,
                index_at_offset(self@, offset as int),
                result.unwrap(),
            ),
    {
        Self::locate_offset_recursive(&self.root, offset)
    }

    /// Finds in the subtree the piece that covers the byte at `offset`,
    /// with what lies in front of it in the subtree.
    fn locate_offset_recursive(node: &Option<Box<RBNode>>, offset: usize) -> (result: Option<
        PieceLocation,
    >)
        requires
            link_metadata_ok(*node),
        ensures
            result is Some <==> offset < total_length(link_pieces(*node)),
            result is Some ==> is_location(
                link_pieces(*node),
                index_at_offset(link_pieces(*node), offset as int),
                result.unwrap(),
            ),
        decreases node,
    {
        let node = match node {
            Some(node) => node,
            None => {
                return None;
            },
        };
        let ghost left = link_pieces(node.left);
        let ghost right = link_pieces(node.right);
        let ghost index = index_at_offset(node.pieces(), offset as int);
        proof {
            lemma_total_three(left, node.piece, right);
            lemma_offset_in_parts(left, node.piece, right, offset as int);
            lemma_index_at_offset(node.pieces(), offset as int);
            if index < node.pieces().len() {
                lemma_location_in_parts(left, node.piece, right, index);
            }
        }
        if offset < node.left_subtree_length {
            Self::locate_offset_recursive(&node.left, offset)
        } else if offset - node.left_subtree_length < node.piece.length {
            Some(
                PieceLocation {
                    piece: node.piece,
                    start: node.left_subtree_length,
                    line_breaks_before: node.left_subtree_line_breaks,
                },
            )
        } else {
            let skipped = node.left_subtree_length + node.piece.length;
            let skipped_breaks = node.left_subtree_line_breaks + node.piece.line_break_count;
            match Self::locate_offset_recursive(&node.right, offset - skipped) {
                Some(found) => {
                    proof {
                        lemma_total_take(right, index - left.len() - 1);
                    }
                    Some(
                        PieceLocation {
                            piece: found.piece,
                            start: skipped + found.start,
                            line_breaks_before: skipped_breaks + found.line_breaks_before,
                        },
                    )
                },
                None => None,
            }
        }
    }

    /// Finds the piece that holds line break number `line_break`, counted
    /// from 0, with the byte offset at which it begins and the number of
    /// line breaks in front of it.
    pub fn locate_line_break(&self, line_break: usize) -> (result: Option<PieceLocation>)
        requires
            link_metadata_ok(self.root),
        ensures
            result is Some <==> line_break < total_line_breaks(self@),
            result is Some ==> is_location(
                self@,
                index_at_line_break(self@, line_break as int),
                result.unwrap(),
            ),
    {
        Self::locate_line_break_recursive(&self.root, line_break)
    }

    /// Finds in the subtree the piece that holds line break number
    /// `line_break`, with what lies in front of it in the subtree.
    fn locate_line_break_recursive(node: &Option<Box<RBNode>>, line_break: usize) -> (result:
        Option<PieceLocation>)
        requires
            link_metadata_ok(*node),
        ensures
            result is Some <==> line_break < total_line_breaks(link_pieces(*node)),
            result is Some ==> is_location(
                link_pieces(*node),
                index_at_line_break(link_pieces(*node), line_break as int),
                result.unwrap(),
            ),
        decreases node,
    {
        let node = match node {
            Some(node) => node,
            None => {
                return None;
            },
        };
        let ghost left = link_pieces(node.left);
        let ghost right = link_pieces(node.right);
        let ghost index = index_at_line_break(node.pieces(), line_break as int);
        proof {
            lemma_total_three(left, node.piece, right);
            lemma_line_break_in_parts(left, node.piece, right, line_break as int);
            lemma_index_at_line_break(node.pieces(), line_break as int);
            if index < node.pieces().len() {
                lemma_location_in_parts(left, node.piece, right, index);
            }
        }
        if line_break < node.left_subtree_line_breaks {
            Self::locate_line_break_recursive(&node.left, line_break)
        } else if line_break - node.left_subtree_line_breaks < node.piece.line_break_count {
            Some(
                PieceLocation {
                    piece: node.piece,
                    start: node.left_subtree_length,
                    line_breaks_before: node.left_subtree_line_breaks,
                },
            )
        } else {
            let skipped = node.left_subtree_length + node.piece.length;
            let skipped_breaks = node.left_subtree_line_breaks + node.piece.line_break_count;
            match Self::locate_line_break_recursive(&node.right, line_break - skipped_breaks) {
                Some(found) => {
                    proof {
                        lemma_total_take(right, index - left.len() - 1);
                    }
                    Some(
                        PieceLocation {
                            piece: found.piece,
                            start: skipped + found.start,
                            line_breaks_before: skipped_breaks + found.line_breaks_before,
                        },
                    )
                },
                None => None,
            }
        }
    }

    /// Finds the piece that holds line break number `line`, counted from
    /// 0: the piece in which line `line` ends. The result is empty when
    /// the document has no such line break.
    pub fn find_pieces_at_line(&self, line: usize) -> (result: Vec<&Piece>)
        requires
            link_metadata_ok(self.root),
        ensures
            line < total_line_breaks(self@) ==> result@.len() == 1 && 0 <= index_at_line_break(
                self@,
                line as int,
            ) < self@.len() && *result@[0] == self@[index_at_line_break(self@, line as int)],
            line >= total_line_breaks(self@) ==> result@.len() == 0,
    {
        let mut pieces: Vec<&Piece> = Vec::new();
        Self::find_pieces_at_line_recursive(&self.root, line, &mut pieces);
        pieces
    }

    /// Appends to `pieces` the piece of the subtree that holds line break
    /// number `line`, where there is one.
    fn find_pieces_at_line_recursive<'a>(
        node: &'a Option<Box<RBNode>>,
        line: usize,
        pieces: &mut Vec<&'a Piece>,
    )
        requires
            link_metadata_ok(*node),
        ensures
            line < total_line_breaks(link_pieces(*node)) ==> final(pieces)@.len() == old(
                pieces,
            )@.len() + 1 && final(pieces)@.drop_last() == old(pieces)@ && 0
                <= index_at_line_break(link_pieces(*node), line as int) < link_pieces(*node).len()
                && *final(pieces)@.last() == link_pieces(*node)[index_at_line_break(
                link_pieces(*node),
                line as int,
            )],
            line >= total_line_breaks(link_pieces(*node)) ==> final(pieces)@ == old(pieces)@,
        decreases node,
    {
        let node = match node {
            Some(node) => node,
            None => {
                return ;
            },
        };
        let ghost left = link_pieces(node.left);
        let ghost right = link_pieces(node.right);
        proof {
            lemma_total_three(left, node.piece, right);
            lemma_line_break_in_parts(left, node.piece, right, line as int);
            if line >= node.left_subtree_line_breaks + node.piece.line_break_count {
                lemma_index_at_line_break(
                    right,
                    line - node.left_subtree_line_breaks - node.piece.line_break_count,
                );
            }
        }
        if line < node.left_subtree_line_breaks {
            Self::find_pieces_at_line_recursive(&node.left, line, pieces);
        } else if line - node.left_subtree_line_breaks < node.piece.line_break_count {
            pieces.push(&node.piece);
            proof {
                assert(pieces@.drop_last() =~= old(pieces)@);
            }
        } else {
            Self::find_pieces_at_line_recursive(
                &node.right,
                line - node.left_subtree_line_breaks - node.piece.line_break_count,
                pieces,
            );
        }
    }

    /// The pieces of the tree, in document order.
    pub fn collect_pieces(&self) -> (result: Vec<&Piece>)
        ensures
            result@.len() == self@.len(),
            forall|i: int| 0 <= i < result@.len() ==> *#[trigger] result@[i] == self@[i],
    {
        let mut pieces: Vec<&Piece> = Vec::new();
        Self::collect_pieces_recursive(&self.root, &mut pieces);
        proof {
            assert forall|i: int| 0 <= i < pieces@.len() implies *#[trigger] pieces@[i]
                == self@[i] by {
                assert(*pieces@[0 + i] == self@[i]);
            }
        }
        pieces
    }

    /// Appends to `pieces` the pieces of the subtree, in document order.
    fn collect_pieces_recursive<'a>(node: &'a Option<Box<RBNode>>, pieces: &mut Vec<&'a Piece>)
        ensures
            final(pieces)@.len() == old(pieces)@.len() + link_pieces(*node).len(),
            forall|i: int| 0 <= i < old(pieces)@.len() ==> final(pieces)@[i] == old(pieces)@[i],
            forall|i: int|
                0 <= i < link_pieces(*node).len() ==> *#[trigger] final(pieces)@[old(pieces)@.len()
                    + i] == link_pieces(*node)[i],
        decreases node,
    {
        match node {
            Some(node) => {
                let ghost left = link_pieces(node.left);
                let ghost right = link_pieces(node.right);
                Self::collect_pieces_recursive(&node.left, pieces);
                let ghost middle = pieces@;
                pieces.push(&node.piece);
                let ghost pushed = pieces@;
                Self::collect_pieces_recursive(&node.right, pieces);
                proof {
                    let base = old(pieces)@.len() as int;
                    let all = node.pieces();
                    assert forall|i: int| 0 <= i < all.len() implies *#[trigger] pieces@[base + i]
                        == all[i] by {
                        if i < left.len() {
                            assert(pieces@[base + i] == pushed[base + i]);
                            assert(pushed[base + i] == middle[base + i]);
                        } else if i == left.len() {
                            assert(pieces@[base + i] == pushed[base + i]);
                        } else {
                            assert(*pieces@[pushed.len() + (i - left.len() - 1)] == right[i
                                - left.len() - 1]);
                        }
                    }
                    assert forall|i: int| 0 <= i < base implies pieces@[i] == old(pieces)@[i] by {
                        assert(pieces@[i] == pushed[i]);
                        assert(pushed[i] == middle[i]);
                    }
                }
            },
            None => {},
        }
    }

    /// Puts `piece` in the place of the piece that covers the byte at
    /// `offset`, and returns that piece.
    pub fn replace_at(&mut self, offset: usize, piece: Piece) -> (result: Piece)
        requires
            old(self).wf(),
            offset < total_length(old(self)@),
            total_length(old(self)@.update(index_at_offset(old(self)@, offset as int), piece))
                <= usize::MAX,
            total_line_breaks(
                old(self)@.update(index_at_offset(old(self)@, offset as int), piece),
            ) <= usize::MAX,
        ensures
            final(self).wf(),
            0 <= index_at_offset(old(self)@, offset as int) < old(self)@.len(),
            result == old(self)@[index_at_offset(old(self)@, offset as int)],
            final(self)@ == old(self)@.update(index_at_offset(old(self)@, offset as int), piece),
    {
        let root = self.root.take().unwrap();
        let (root, replaced) = Self::replace_recursive(root, offset, piece);
        self.root = Some(root);
        replaced
    }

    /// Puts `piece` in the place of the piece of the subtree that covers
    /// the byte at `offset`, and returns that piece with the new subtree.
    fn replace_recursive(mut node: Box<RBNode>, offset: usize, piece: Piece) -> (result: (
        Box<RBNode>,
        Piece,
    ))
        requires
            node.metadata_ok(),
            offset < total_length(node.pieces()),
            total_length(node.pieces().update(index_at_offset(node.pieces(), offset as int), piece))
                <= usize::MAX,
            total_line_breaks(
                node.pieces().update(index_at_offset(node.pieces(), offset as int), piece),
            ) <= usize::MAX,
        ensures
            result.0.metadata_ok(),
            0 <= index_at_offset(node.pieces(), offset as int) < node.pieces().len(),
            result.1 == node.pieces()[index_at_offset(node.pieces(), offset as int)],
            result.0.pieces() == node.pieces().update(
                index_at_offset(node.pieces(), offset as int),
                piece,
            ),
            result.0.color == node.color,
            black_height(Some(result.0)) == black_height(Some(node)),
            balanced(Some(node)) ==> balanced(Some(result.0)),
            no_red_red(Some(node)) ==> no_red_red(Some(result.0)),
        decreases node,
    {
        let ghost before = node.pieces();
        let ghost left = link_pieces(node.left);
        let ghost right = link_pieces(node.right);
        let ghost index = index_at_offset(before, offset as int);
        proof {
            lemma_total_three(left, node.piece, right);
            lemma_offset_in_parts(left, node.piece, right, offset as int);
            lemma_index_at_offset(before, offset as int);
            lemma_total_update(before, index, piece);
        }
        if offset < node.left_subtree_length {
            proof {
                lemma_total_update(left, index, piece);
            }
            let child = node.left.take().unwrap();
            let (child, replaced) = Self::replace_recursive(child, offset, piece);
            node.left = Some(child);
            proof {
                assert(node.pieces() =~= before.update(index, piece));
            }
            node.update_metadata();
            (node, replaced)
        } else if offset - node.left_subtree_length < node.piece.length {
            let replaced = node.piece;
            node.piece = piece;
            proof {
                assert(node.pieces() =~= before.update(index, piece));
            }
            (node, replaced)
        } else {
            let rest = offset - node.left_subtree_length - node.piece.length;
            proof {
                lemma_index_at_offset(right, rest as int);
                lemma_total_update(right, index - left.len() - 1, piece);
            }
            let child = node.right.take().unwrap();
            let (child, replaced) = Self::replace_recursive(child, rest, piece);
            node.right = Some(child);
            proof {
                assert(node.pieces() =~= before.update(index, piece));
            }
            (node, replaced)
        }
    }

    /// Gives the root of the subtree the color `color`.
    fn paint(mut node: Box<RBNode>, color: Color) -> (result: Box<RBNode>)
        ensures
            *result == (RBNode { color, ..*node }),
            result.pieces() == node.pieces(),
            node.metadata_ok() ==> result.metadata_ok(),
            balanced(Some(node)) ==> balanced(Some(result)),
            no_red_red_below(Some(node)) ==> no_red_red_below(Some(result)),
            no_red_red_below(Some(node)) && color == Color::Black ==> no_red_red(Some(result)),
            black_height(Some(result)) == black_height(node.left) + if color == Color::Black {
                1nat
            } else {
                0nat
            },
    {
        node.color = color;
        node
    }

    /// Restores the balance at `node` after its left subtree, which has a
    /// red root, lost one black node on every path.
    fn mend_left_red(mut node: Box<RBNode>) -> (result: Box<RBNode>)
        requires
            node.children_ok(),
            link_is_red(node.left),
            balanced(node.left),
            balanced(node.right),
            black_height(node.left) + 1 == black_height(node.right),
            no_red_red_below(node.left),
            no_red_red(node.right),
        ensures
            result.metadata_ok(),
            result.pieces() == node.pieces(),
            balanced(Some(result)),
            black_height(Some(result)) == black_height(node.right),
            no_red_red_below(Some(result)),
            !link_is_red(node.right) ==> no_red_red(Some(result)),
    {
        let left = node.left.take().unwrap();
        node.left = Some(Self::paint(left, Color::Black));
        node.color = Color::Red;
        node.update_metadata();
        node
    }

    /// Restores the balance at `node` after its left subtree lost one
    /// black node on every path, where the right subtree has a black root.
    fn mend_left_black_sibling(mut node: Box<RBNode>) -> (result: Box<RBNode>)
        requires
            node.children_ok(),
            !link_is_red(node.left),
            node.right is Some,
            !link_is_red(node.right),
            balanced(node.left),
            balanced(node.right),
            black_height(node.left) + 1 == black_height(node.right),
            no_red_red(node.left),
            no_red_red(node.right),
        ensures
            result.metadata_ok(),
            result.pieces() == node.pieces(),
            balanced(Some(result)),
            black_height(Some(result)) == black_height(node.right),
            no_red_red(Some(result)),
    {
        let right = node.right.take().unwrap();
        node.right = Some(Self::paint(right, Color::Red));
        node.color = Color::Black;
        Self::fix_right(node)
    }

    /// Restores the balance at `node` after its left subtree lost one
    /// black node on every path, where the right subtree has a red root.
    fn mend_left_red_sibling(mut node: Box<RBNode>) -> (result: Box<RBNode>)
        requires
            node.children_ok(),
            !link_is_red(node.left),
            link_is_red(node.right),
            balanced(node.left),
            balanced(node.right),
            black_height(node.left) + 1 == black_height(node.right),
            no_red_red(node.left),
            no_red_red(node.right),
        ensures
            result.metadata_ok(),
            result.pieces() == node.pieces(),
            balanced(Some(result)),
            black_height(Some(result)) == black_height(node.right),
            no_red_red_below(Some(result)),
    {
        let ghost height = black_height(node.left);
        let ghost a = link_pieces(node.left);
        let ghost p = node.piece;
        let mut right = node.right.take().unwrap();
        let ghost q = right.piece;
        let ghost d = link_pieces(right.right);
        proof {
            assert(balanced(right.left) && balanced(right.right));
            assert(no_red_red(right.left) && no_red_red(right.right));
            assert(black_height(right.left) == height + 1);
            assert(black_height(right.right) == height + 1);
            assert(right.metadata_ok());
        }
        let mut middle = right.left.take().unwrap();
        let ghost m = middle.piece;
        let ghost b = link_pieces(middle.left);
        let ghost c = link_pieces(middle.right);
        proof {
            assert(middle.color == Color::Black);
            assert(balanced(middle.left) && balanced(middle.right));
            assert(no_red_red(middle.left) && no_red_red(middle.right));
            assert(black_height(middle.left) == height);
            assert(black_height(middle.right) == height);
            assert(middle.metadata_ok());
            lemma_regroup_right(a, p, b, m, c, q, d);
        }
        right.left = middle.right.take();
        let far = right.right.take().unwrap();
        proof {
            assert(far.color == Color::Black);
            assert(far.metadata_ok());
        }
        right.right = Some(Self::paint(far, Color::Red));
        right.color = Color::Black;
        proof {
            assert(right.pieces() == c + seq![q] + d);
            assert(black_height(right.left) == height);
            assert(black_height(right.right) == height);
            assert(black_height(Some(right)) == height + 1);
            assert(balanced(Some(right)));
        }
        let right = Self::fix_right(right);
        node.right = middle.left.take();
        node.color = Color::Black;
        proof {
            assert(node.pieces() == a + seq![p] + b);
        }
        node.update_metadata();
        proof {
            assert(black_height(node.left) == height);
            assert(black_height(node.right) == height);
            assert(black_height(Some(node)) == height + 1);
            assert(balanced(Some(node)));
            assert(no_red_red(Some(node)));
        }
        middle.left = Some(node);
        middle.right = Some(right);
        middle.color = Color::Red;
        proof {
            assert(middle.pieces() == (a + seq![p] + b) + seq![m] + (c + seq![q] + d));
        }
        middle.update_metadata();
        proof {
            assert(black_height(middle.left) == height + 1);
            assert(black_height(middle.right) == height + 1);
        }
        middle
    }

    /// Restores the balance at `node` after its left subtree lost one
    /// black node on every path. The color that `node` had is not kept.
    fn mend_left(node: Box<RBNode>) -> (result: Box<RBNode>)
        requires
            node.children_ok(),
            balanced(node.left),
            balanced(node.right),
            black_height(node.left) + 1 == black_height(node.right),
            no_red_red_below(node.left),
            no_red_red(node.right),
        ensures
            result.metadata_ok(),
            result.pieces() == node.pieces(),
            balanced(Some(result)),
            black_height(Some(result)) == black_height(node.right),
            no_red_red_below(Some(result)),
            !link_is_red(node.right) ==> no_red_red(Some(result)),
    {
        if Self::is_red(&node.left) {
            Self::mend_left_red(node)
        } else if Self::is_red(&node.right) {
            Self::mend_left_red_sibling(node)
        } else {
            Self::mend_left_black_sibling(node)
        }
    }

    /// Restores the balance at `node` after its right subtree, which has a
    /// red root, lost one black node on every path.
    fn mend_right_red(mut node: Box<RBNode>) -> (result: Box<RBNode>)
        requires
            node.children_ok(),
            link_is_red(node.right),
            balanced(node.left),
            balanced(node.right),
            black_height(node.right) + 1 == black_height(node.left),
            no_red_red(node.left),
            no_red_red_below(node.right),
        ensures
            result.metadata_ok(),
            result.pieces() == node.pieces(),
            balanced(Some(result)),
            black_height(Some(result)) == black_height(node.left),
            no_red_red_below(Some(result)),
            !link_is_red(node.left) ==> no_red_red(Some(result)),
    {
        let right = node.right.take().unwrap();
        node.right = Some(Self::paint(right, Color::Black));
        node.color = Color::Red;
        node.update_metadata();
        node
    }

    /// Restores the balance at `node` after its right subtree lost one
    /// black node on every path, where the left subtree has a black root.
    fn mend_right_black_sibling(mut node: Box<RBNode>) -> (result: Box<RBNode>)
        requires
            node.children_ok(),
            !link_is_red(node.right),
            node.left is Some,
            !link_is_red(node.left),
            balanced(node.left),
            balanced(node.right),
            black_height(node.right) + 1 == black_height(node.left),
            no_red_red(node.left),
            no_red_red(node.right),
        ensures
            result.metadata_ok(),
            result.pieces() == node.pieces(),
            balanced(Some(result)),
            black_height(Some(result)) == black_height(node.left),
            no_red_red(Some(result)),
    {
        let left = node.left.take().unwrap();
        node.left = Some(Self::paint(left, Color::Red));
        node.color = Color::Black;
        Self::fix_left(node)
    }

    /// Restores the balance at `node` after its right subtree lost one
    /// black node on every path, where the left subtree has a red root.
    fn mend_right_red_sibling(mut node: Box<RBNode>) -> (result: Box<RBNode>)
        requires
            node.children_ok(),
            !link_is_red(node.right),
            link_is_red(node.left),
            balanced(node.left),
            balanced(node.right),
            black_height(node.right) + 1 == black_height(node.left),
            no_red_red(node.left),
            no_red_red(node.right),
        ensures
            result.metadata_ok(),
            result.pieces() == node.pieces(),
            balanced(Some(result)),
            black_height(Some(result)) == black_height(node.left),
            no_red_red_below(Some(result)),
    {
        let ghost height = black_height(node.right);
        let ghost d = link_pieces(node.right);
        let ghost p = node.piece;
        let mut left = node.left.take().unwrap();
        let ghost q = left.piece;
        let ghost e = link_pieces(left.left);
        proof {
            assert(balanced(left.left) && balanced(left.right));
            assert(no_red_red(left.left) && no_red_red(left.right));
            assert(black_height(left.left) == height + 1);
            assert(black_height(left.right) == height + 1);
            assert(left.metadata_ok());
        }
        let mut middle = left.right.take().unwrap();
        let ghost m = middle.piece;
        let ghost f = link_pieces(middle.left);
        let ghost g = link_pieces(middle.right);
        proof {
            assert(middle.color == Color::Black);
            assert(balanced(middle.left) && balanced(middle.right));
            assert(no_red_red(middle.left) && no_red_red(middle.right));
            assert(black_height(middle.left) == height);
            assert(black_height(middle.right) == height);
            assert(middle.metadata_ok());
            lemma_regroup_left(e, q, f, m, g, p, d);
        }
        left.right = middle.left.take();
        let far = left.left.take().unwrap();
        proof {
            assert(far.color == Color::Black);
            assert(far.metadata_ok());
        }
        left.left = Some(Self::paint(far, Color::Red));
        left.color = Color::Black;
        proof {
            assert(left.pieces() == e + seq![q] + f);
            assert(black_height(left.left) == height);
            assert(black_height(left.right) == height);
            assert(black_height(Some(left)) == height + 1);
            assert(balanced(Some(left)));
        }
        let left = Self::fix_left(left);
        node.left = middle.right.take();
        node.color = Color::Black;
        proof {
            assert(node.pieces() == g + seq![p] + d);
        }
        node.update_metadata();
        proof {
            assert(black_height(node.left) == height);
            assert(black_height(node.right) == height);
            assert(black_height(Some(node)) == height + 1);
            assert(balanced(Some(node)));
            assert(no_red_red(Some(node)));
        }
        middle.left = Some(left);
        middle.right = Some(node);
        middle.color = Color::Red;
        proof {
            assert(middle.pieces() == (e + seq![q] + f) + seq![m] + (g + seq![p] + d));
        }
        middle.update_metadata();
        proof {
            assert(black_height(middle.left) == height + 1);
            assert(black_height(middle.right) == height + 1);
        }
        middle
    }

    /// Restores the balance at `node` after its right subtree lost one
    /// black node on every path. The color that `node` had is not kept.
    fn mend_right(node: Box<RBNode>) -> (result: Box<RBNode>)
        requires
            node.children_ok(),
            balanced(node.left),
            balanced(node.right),
            black_height(node.right) + 1 == black_height(node.left),
            no_red_red(node.left),
            no_red_red_below(node.right),
        ensures
            result.metadata_ok(),
            result.pieces() == node.pieces(),
            balanced(Some(result)),
            black_height(Some(result)) == black_height(node.left),
            no_red_red_below(Some(result)),
            !link_is_red(node.left) ==> no_red_red(Some(result)),
    {
        if Self::is_red(&node.right) {
            Self::mend_right_red(node)
        } else if Self::is_red(&node.left) {
            Self::mend_right_red_sibling(node)
        } else {
            Self::mend_right_black_sibling(node)
        }
    }

    /// Puts `rest` in the place of the left subtree of `node`, which lost a
    /// piece and, where its root was black, one black node on every path.
    fn after_left_removal(
        mut node: Box<RBNode>,
        rest: Option<Box<RBNode>>,
        was_black: bool,
    ) -> (result: Box<RBNode>)
        requires
            node.left is None,
            link_metadata_ok(rest),
            link_metadata_ok(node.right),
            total_length(link_pieces(rest) + seq![node.piece] + link_pieces(node.right))
                <= usize::MAX,
            total_line_breaks(link_pieces(rest) + seq![node.piece] + link_pieces(node.right))
                <= usize::MAX,
            balanced(rest),
            balanced(node.right),
            no_red_red_below(rest),
            no_red_red(node.right),
            was_black ==> black_height(rest) + 1 == black_height(node.right),
            !was_black ==> black_height(rest) == black_height(node.right) && no_red_red(rest),
            node.color == Color::Red ==> was_black && !link_is_red(node.right),
        ensures
            result.metadata_ok(),
            result.pieces() == link_pieces(rest) + seq![node.piece] + link_pieces(node.right),
            balanced(Some(result)),
            no_red_red_below(Some(result)),
            node.color == Color::Red ==> black_height(Some(result)) == black_height(node.right)
                && no_red_red(Some(result)),
            node.color == Color::Black ==> black_height(Some(result)) == black_height(node.right),
    {
        node.left = rest;
        if was_black {
            Self::mend_left(node)
        } else {
            node.color = Color::Red;
            node.update_metadata();
            node
        }
    }

    /// Puts `rest` in the place of the right subtree of `node`, which lost
    /// a piece and, where its root was black, one black node on every path.
    fn after_right_removal(
        mut node: Box<RBNode>,
        rest: Option<Box<RBNode>>,
        was_black: bool,
    ) -> (result: Box<RBNode>)
        requires
            node.right is None,
            link_metadata_ok(rest),
            link_metadata_ok(node.left),
            node.left_subtree_length == total_length(link_pieces(node.left)),
            node.left_subtree_line_breaks == total_line_breaks(link_pieces(node.left)),
            total_length(link_pieces(node.left) + seq![node.piece] + link_pieces(rest))
                <= usize::MAX,
            total_line_breaks(link_pieces(node.left) + seq![node.piece] + link_pieces(rest))
                <= usize::MAX,
            balanced(rest),
            balanced(node.left),
            no_red_red_below(rest),
            no_red_red(node.left),
            was_black ==> black_height(rest) + 1 == black_height(node.left),
            !was_black ==> black_height(rest) == black_height(node.left) && no_red_red(rest),
            node.color == Color::Red ==> was_black && !link_is_red(node.left),
        ensures
            result.metadata_ok(),
            result.pieces() == link_pieces(node.left) + seq![node.piece] + link_pieces(rest),
            balanced(Some(result)),
            no_red_red_below(Some(result)),
            black_height(Some(result)) == black_height(node.left),
            node.color == Color::Red ==> no_red_red(Some(result)),
    {
        node.right = rest;
        if was_black {
            Self::mend_right(node)
        } else {
            node.color = Color::Red;
            node
        }
    }

    /// Takes the first piece out of the subtree. Where the root was black,
    /// every path of what is left passes one black node fewer.
    fn remove_first(mut node: Box<RBNode>) -> (result: (Piece, Option<Box<RBNode>>))
        requires
            node.metadata_ok(),
            balanced(Some(node)),
            no_red_red(Some(node)),
        ensures
            result.0 == node.pieces()[0],
            link_pieces(result.1) == node.pieces().drop_first(),
            link_metadata_ok(result.1),
            balanced(result.1),
            no_red_red_below(result.1),
            node.color == Color::Red ==> black_height(result.1) == black_height(Some(node))
                && no_red_red(result.1),
            node.color == Color::Black ==> black_height(result.1) + 1 == black_height(Some(node)),
        decreases node,
    {
        let ghost all = node.pieces();
        let ghost left_pieces = link_pieces(node.left);
        let ghost right_pieces = link_pieces(node.right);
        proof {
            lemma_total_three(left_pieces, node.piece, right_pieces);
            assert(no_red_red(node.left) && no_red_red(node.right));
            assert(balanced(node.left) && balanced(node.right));
            assert(black_height(node.left) == black_height(node.right));
        }
        match node.left.take() {
            None => {
                proof {
                    assert(all.drop_first() =~= right_pieces);
                    assert(no_red_red_below(node.right));
                }
                (node.piece, node.right.take())
            },
            Some(left) => {
                let was_black = left.color == Color::Black;
                proof {
                    assert(left.pieces().len() > 0);
                    lemma_total_remove(left_pieces, 0);
                    assert(left_pieces.remove(0) =~= left_pieces.drop_first());
                    assert(left_pieces.drop_first() + seq![node.piece] + right_pieces
                        =~= all.drop_first());
                    lemma_total_three(left_pieces.drop_first(), node.piece, right_pieces);
                }
                let (first, rest) = Self::remove_first(left);
                (first, Some(Self::after_left_removal(node, rest, was_black)))
            },
        }
    }

    /// Takes the piece of the root out of the subtree. Where the root was
    /// black, every path of what is left passes one black node fewer.
    fn remove_root(mut node: Box<RBNode>) -> (result: (Piece, Option<Box<RBNode>>))
        requires
            node.metadata_ok(),
            balanced(Some(node)),
            no_red_red(Some(node)),
        ensures
            result.0 == node.piece,
            link_pieces(result.1) == link_pieces(node.left) + link_pieces(node.right),
            link_metadata_ok(result.1),
            balanced(result.1),
            no_red_red_below(result.1),
            node.color == Color::Red ==> black_height(result.1) == black_height(Some(node))
                && no_red_red(result.1),
            node.color == Color::Black ==> black_height(result.1) + 1 == black_height(Some(node)),
    {
        let ghost left_pieces = link_pieces(node.left);
        let ghost right_pieces = link_pieces(node.right);
        proof {
            lemma_total_three(left_pieces, node.piece, right_pieces);
            lemma_total_length_concat(left_pieces, right_pieces);
            lemma_total_line_breaks_concat(left_pieces, right_pieces);
            assert(no_red_red(node.left) && no_red_red(node.right));
            assert(balanced(node.left) && balanced(node.right));
            assert(black_height(node.left) == black_height(node.right));
        }
        let removed = node.piece;
        match node.right.take() {
            None => {
                proof {
                    assert(left_pieces + right_pieces =~= left_pieces);
                    assert(no_red_red_below(node.left));
                }
                (removed, node.left.take())
            },
            Some(right) => {
                let was_black = right.color == Color::Black;
                proof {
                    assert(right.pieces().len() > 0);
                    assert(right_pieces =~= seq![right_pieces[0]] + right_pieces.drop_first());
                    assert(left_pieces + seq![right_pieces[0]] + right_pieces.drop_first()
                        =~= left_pieces + right_pieces);
                }
                let (first, rest) = Self::remove_first(right);
                node.piece = first;
                (removed, Some(Self::after_right_removal(node, rest, was_black)))
            },
        }
    }

    /// Takes the piece that covers the byte at `offset` out of the
    /// subtree. Where the root was black, every path of what is left
    /// passes one black node fewer.
    fn remove_recursive(mut node: Box<RBNode>, offset: usize) -> (result: (
        Piece,
        Option<Box<RBNode>>,
    ))
        requires
            node.metadata_ok(),
            balanced(Some(node)),
            no_red_red(Some(node)),
            offset < total_length(node.pieces()),
        ensures
            0 <= index_at_offset(node.pieces(), offset as int) < node.pieces().len(),
            result.0 == node.pieces()[index_at_offset(node.pieces(), offset as int)],
            link_pieces(result.1) == node.pieces().remove(
                index_at_offset(node.pieces(), offset as int),
            ),
            link_metadata_ok(result.1),
            balanced(result.1),
            no_red_red_below(result.1),
            node.color == Color::Red ==> black_height(result.1) == black_height(Some(node))
                && no_red_red(result.1),
            node.color == Color::Black ==> black_height(result.1) + 1 == black_height(Some(node)),
        decreases node,
    {
        let ghost all = node.pieces();
        let ghost left_pieces = link_pieces(node.left);
        let ghost right_pieces = link_pieces(node.right);
        let ghost index = index_at_offset(all, offset as int);
        proof {
            lemma_total_three(left_pieces, node.piece, right_pieces);
            lemma_offset_in_parts(left_pieces, node.piece, right_pieces, offset as int);
            lemma_index_at_offset(all, offset as int);
            lemma_remove_in_parts(left_pieces, node.piece, right_pieces, index);
            assert(no_red_red(node.left) && no_red_red(node.right));
            assert(balanced(node.left) && balanced(node.right));
            assert(black_height(node.left) == black_height(node.right));
        }
        if offset < node.left_subtree_length {
            let left = node.left.take().unwrap();
            let was_black = left.color == Color::Black;
            let (removed, rest) = Self::remove_recursive(left, offset);
            (removed, Some(Self::after_left_removal(node, rest, was_black)))
        } else if offset - node.left_subtree_length < node.piece.length {
            Self::remove_root(node)
        } else {
            let rest_offset = offset - node.left_subtree_length - node.piece.length;
            proof {
                lemma_index_at_offset(right_pieces, rest_offset as int);
            }
            let right = node.right.take().unwrap();
            let was_black = right.color == Color::Black;
            let (removed, rest) = Self::remove_recursive(right, rest_offset);
            (removed, Some(Self::after_right_removal(node, rest, was_black)))
        }
    }

    /// Takes the piece that covers the byte at `offset` out of the tree
    /// and returns it. The tree stays as it is when there is no such
    /// piece.
    pub fn remove_at(&mut self, offset: usize) -> (result: Option<Piece>)
        requires
            old(self).wf(),
        ensures
            final(self).wf(),
            result is Some <==> offset < total_length(old(self)@),
            result is Some ==> 0 <= index_at_offset(old(self)@, offset as int) < old(self)@.len()
                && result.unwrap() == old(self)@[index_at_offset(old(self)@, offset as int)]
                && final(self)@ == old(self)@.remove(index_at_offset(old(self)@, offset as int)),
            result is None ==> final(self)@ == old(self)@ && final(self).size == old(self).size,
    {
        if offset >= self.total_length() {
            return None;
        }
        let root = self.root.take().unwrap();
        let (removed, rest) = Self::remove_recursive(root, offset);
        self.root = match rest {
            Some(node) => Some(Self::paint(node, Color::Black)),
            None => None,
        };
        self.size = self.size - 1;
        Some(removed)
    }
}

impl Clone for RBTree {
    /// Copies the tree.
    fn clone(&self) -> (result: Self)
        ensures
            result == *self,
    {
        RBTree {
            root: match &self.root {
                Some(node) => Some(Box::new((&**node).clone())),
                None => None,
            },
            size: self.size,
        }
    }
}

impl Default for RBTree {
    /// An empty tree.
    fn default() -> (result: Self)
        ensures
            result.wf(),
            result@ == Seq::<Piece>::empty(),
    {
        Self::new()
    }
}

} // verus!
