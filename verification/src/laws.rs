//! What holds of the queries and edits taken together, stated over the
//! bytes of a document and proved once for every document.

use crate::text::{
    char_count, column_of, is_boundary, is_char_start, is_offset_of, lemma_char_count_concat,
    lemma_char_count_step, lemma_encode_concat, lemma_line_bounds, lemma_line_break_count_concat,
    lemma_line_of, lemma_line_starts, lemma_offset_in_line, lemma_position_of_boundary,
    lemma_position_offset, lemma_valid_utf8_first_byte, lemma_valid_utf8_range, line_begin,
    line_break_count, line_bytes, line_count, line_end, line_of, line_start, position_exists,
    position_offset, LINE_BREAK,
};
use crate::text_buffer::range_offsets;
use crate::types::{Range, TextBufferError};
use vstd::prelude::*;
use vstd::utf8::*;

verus! {

/// The text of `chunks`, one after the other.
pub open spec fn chunks_text(chunks: Seq<Seq<char>>) -> Seq<char>
    decreases chunks.len(),
{
    if chunks.len() == 0 {
        Seq::empty()
    } else {
        chunks_text(chunks.drop_last()) + chunks.last()
    }
}

/// The document that a builder holds after it has taken `chunks` in their
/// order: the bytes of each chunk, one after the other.
pub open spec fn chunks_bytes(chunks: Seq<Seq<char>>) -> Seq<u8>
    decreases chunks.len(),
{
    if chunks.len() == 0 {
        Seq::empty()
    } else {
        chunks_bytes(chunks.drop_last()) + encode_utf8(chunks.last())
    }
}

/// The number of line-break characters in `text`.
pub open spec fn newline_count(text: Seq<char>) -> nat
    decreases text.len(),
{
    if text.len() == 0 {
        0
    } else {
        newline_count(text.drop_last()) + if text.last() == '\n' {
            1nat
        } else {
            0nat
        }
    }
}

/// A document built from chunks is the encoding of the chunks taken as
/// one text, so its text is that of the chunks, one after the other.
pub proof fn lemma_chunks_round_trip(chunks: Seq<Seq<char>>)
    ensures
        chunks_bytes(chunks) == encode_utf8(chunks_text(chunks)),
        decode_utf8(chunks_bytes(chunks)) == chunks_text(chunks),
    decreases chunks.len(),
{
    if chunks.len() > 0 {
        lemma_chunks_round_trip(chunks.drop_last());
        lemma_encode_concat(chunks_text(chunks.drop_last()), chunks.last());
    }
    encode_utf8_decode_utf8(chunks_text(chunks));
}

/// Two texts with the same encoding are the same text: to say what the
/// encoding of a text is, is to say what the text is.
pub proof fn lemma_encode_injective(a: Seq<char>, b: Seq<char>)
    requires
        encode_utf8(a) == encode_utf8(b),
    ensures
        a == b,
{
    encode_utf8_decode_utf8(a);
    encode_utf8_decode_utf8(b);
}

/// The bytes that encode one scalar value hold one byte that starts a
/// scalar value, and a line break just when the scalar value is the
/// line-break character.
pub proof fn lemma_encoded_scalar(c: char)
    ensures
        char_count(encode_scalar(c as u32)) == 1,
        line_break_count(encode_scalar(c as u32)) == if c == '\n' {
            1nat
        } else {
            0nat
        },
{
    let single = seq![c];
    let bytes = encode_scalar(c as u32);
    assert(single.drop_first() =~= Seq::<char>::empty());
    assert(encode_utf8(single.drop_first()) =~= Seq::<u8>::empty());
    assert(encode_utf8(single) =~= bytes);
    encode_utf8_first_scalar(single);
    char_is_scalar(c);
    assert(is_char_start(bytes[0]));
    let first = bytes[0];
    if bytes.len() == 1 {
        assert(first <= 0x7f ==> (first & 0x7f) as u32 == first as u32) by (bit_vector);
        assert(('\n' as u32) == 0x0a);
        assert(bytes.drop_last() =~= Seq::<u8>::empty());
        assert(char_count(bytes.drop_last()) == 0);
        assert(line_break_count(bytes.drop_last()) == 0);
        if first == LINE_BREAK {
            assert(c as u32 == 0x0a);
            char_u32_cast(c, 0x0a);
        }
    } else {
        reveal_with_fuel(char_count, 5);
        reveal_with_fuel(line_break_count, 5);
        assert(bytes.len() == 2 || bytes.len() == 3 || bytes.len() == 4);
        assert(c as u32 != 0x0a);
        if bytes.len() == 2 {
            assert(bytes.drop_last().drop_last() =~= Seq::<u8>::empty());
        } else if bytes.len() == 3 {
            assert(bytes.drop_last().drop_last().drop_last() =~= Seq::<u8>::empty());
        } else {
            assert(bytes.drop_last().drop_last().drop_last().drop_last() =~= Seq::<u8>::empty());
        }
    }
}

/// Columns count scalar values: the encoding of a text holds as many
/// bytes that start a scalar value as the text has scalar values.
pub proof fn lemma_char_count_is_length(text: Seq<char>)
    ensures
        char_count(encode_utf8(text)) == text.len(),
    decreases text.len(),
{
    if text.len() > 0 {
        lemma_encoded_scalar(text[0]);
        lemma_char_count_is_length(text.drop_first());
        lemma_char_count_concat(encode_scalar(text[0] as u32), encode_utf8(text.drop_first()));
    }
}

/// The line breaks of the encoding of a text are the line-break
/// characters of the text, so a document has one line more than its text
/// has line-break characters.
pub proof fn lemma_line_breaks_are_newlines(text: Seq<char>)
    ensures
        line_break_count(encode_utf8(text)) == newline_count(text),
        line_count(encode_utf8(text)) == newline_count(text) + 1,
        line_count(encode_utf8(text)) >= 1,
    decreases text.len(),
{
    if text.len() > 0 {
        let front = text.drop_last();
        let last = seq![text.last()];
        assert(text =~= front + last);
        lemma_encode_concat(front, last);
        lemma_line_breaks_are_newlines(front);
        assert(last.drop_first() =~= Seq::<char>::empty());
        assert(encode_utf8(last.drop_first()) =~= Seq::<u8>::empty());
        assert(encode_utf8(last) =~= encode_scalar(text.last() as u32));
        lemma_encoded_scalar(text.last());
        lemma_line_break_count_concat(encode_utf8(front), encode_utf8(last));
    }
}

/// The line and column of a place lead back to that place.
pub proof fn lemma_offset_position_inverse(s: Seq<u8>, offset: int)
    requires
        is_boundary(s, offset),
    ensures
        position_exists(s, line_of(s, offset) as int, column_of(s, offset) as int),
        position_offset(s, line_of(s, offset) as int, column_of(s, offset) as int) == offset,
{
    lemma_position_of_boundary(s, offset);
    lemma_position_offset(s, offset, line_of(s, offset) as int, column_of(s, offset) as int);
}

/// Between `from`, in front of which at most `column` scalar values of the
/// line start, and the end of the line lies a place with that column.
proof fn lemma_find_column(s: Seq<u8>, start: int, end: int, column: int, from: int)
    requires
        0 <= start <= from <= end <= s.len(),
        char_count(s.subrange(start, from)) <= column <= char_count(s.subrange(start, end)),
    ensures
        exists|offset: int|
            from <= offset <= end && #[trigger] char_count(s.subrange(start, offset)) == column
                && (offset == end || is_char_start(s[offset])),
    decreases end - from,
{
    if from == end {
        assert(char_count(s.subrange(start, end)) == column);
    } else if char_count(s.subrange(start, from)) == column && is_char_start(s[from]) {
    } else {
        lemma_char_count_step(s, start, from);
        lemma_find_column(s, start, end, column, from + 1);
    }
}

/// A line and a column name a place of the text exactly when the line
/// exists and has at least that many scalar values, and `position_offset`
/// is then that place.
pub proof fn lemma_position_exists(s: Seq<u8>, line: int, column: int)
    requires
        valid_utf8(s),
    ensures
        position_exists(s, line, column) <==> exists|offset: int|
            is_offset_of(s, offset, line, column),
        position_exists(s, line, column) ==> is_offset_of(
            s,
            position_offset(s, line, column),
            line,
            column,
        ),
{
    if position_exists(s, line, column) {
        lemma_line_bounds(s, line);
        let start = line_start(s, line);
        let end = line_end(s, line);
        assert(s.subrange(start, start) =~= Seq::<u8>::empty());
        lemma_find_column(s, start, end, column, start);
        let offset = choose|offset: int|
            start <= offset <= end && #[trigger] char_count(s.subrange(start, offset)) == column
                && (offset == end || is_char_start(s[offset]));
        lemma_offset_in_line(s, line, offset);
        assert(is_offset_of(s, offset, line, column));
    }
    if exists|offset: int| is_offset_of(s, offset, line, column) {
        let offset = choose|offset: int| is_offset_of(s, offset, line, column);
        lemma_position_of_boundary(s, offset);
    }
}

/// The range from the first place of a document that is not empty to its
/// last place is the whole document.
pub proof fn lemma_whole_range(s: Seq<u8>, range: Range)
    requires
        valid_utf8(s),
        s.len() > 0,
        range.start.line == 0,
        range.start.column == 0,
        range.end.line == line_count(s) - 1,
        range.end.column == char_count(line_bytes(s, line_count(s) - 1)),
    ensures
        range_offsets(s, range) == Ok::<(int, int), TextBufferError>((0, s.len() as int)),
        s.subrange(0, s.len() as int) == s,
{
    let last = line_count(s) - 1;
    let length = s.len() as int;
    lemma_valid_utf8_first_byte(s);
    lemma_line_starts(s);
    lemma_line_of(s, 0);
    lemma_line_of(s, length);
    assert(s.take(0) =~= Seq::<u8>::empty());
    assert(s.take(length) =~= s);
    assert(s.subrange(0, 0) =~= Seq::<u8>::empty());
    assert(is_offset_of(s, 0, 0, 0));
    assert(is_offset_of(s, length, last, range.end.column as int));
    lemma_position_of_boundary(s, 0);
    lemma_position_of_boundary(s, length);
    lemma_position_offset(s, 0, 0, 0);
    lemma_position_offset(s, length, last, range.end.column as int);
    assert(s.subrange(0, length) =~= s);
}

/// After text was put in at a place, the text of the document is the
/// text in front of the place, the new text, and the text behind the
/// place.
pub proof fn lemma_insert_text(s: Seq<u8>, offset: int, text: Seq<char>)
    requires
        valid_utf8(s),
        is_boundary(s, offset),
    ensures
        valid_utf8(s.take(offset) + encode_utf8(text) + s.skip(offset)),
        decode_utf8(s.take(offset) + encode_utf8(text) + s.skip(offset)) == decode_utf8(
            s.take(offset),
        ) + text + decode_utf8(s.skip(offset)),
        decode_utf8(s) == decode_utf8(s.take(offset)) + decode_utf8(s.skip(offset)),
{
    let front = s.take(offset);
    let back = s.skip(offset);
    if s.len() > 0 {
        lemma_valid_utf8_first_byte(s);
    }
    lemma_valid_utf8_range(s, 0, offset);
    lemma_valid_utf8_range(s, offset, s.len() as int);
    assert(s.subrange(0, offset) =~= front);
    assert(s.subrange(offset, s.len() as int) =~= back);
    decode_utf8_encode_utf8(front);
    decode_utf8_encode_utf8(back);
    lemma_encode_concat(decode_utf8(front), text);
    lemma_encode_concat(decode_utf8(front) + text, decode_utf8(back));
    encode_utf8_decode_utf8(decode_utf8(front) + text + decode_utf8(back));
    encode_utf8_valid_utf8(decode_utf8(front) + text + decode_utf8(back));
    lemma_encode_concat(decode_utf8(front), decode_utf8(back));
    encode_utf8_decode_utf8(decode_utf8(front) + decode_utf8(back));
    assert(front + back =~= s);
}

/// The start of the line of a place hangs only on what lies in front of
/// the place.
proof fn lemma_line_begin_of_prefix(s: Seq<u8>, t: Seq<u8>, offset: int)
    requires
        0 <= offset <= s.len(),
        offset <= t.len(),
        s.take(offset) == t.take(offset),
    ensures
        line_begin(s, offset) == line_begin(t, offset),
    decreases offset,
{
    if offset > 0 {
        assert(s[offset - 1] == s.take(offset)[offset - 1]);
        assert(t[offset - 1] == t.take(offset)[offset - 1]);
        assert(s.take(offset - 1) =~= s.take(offset).take(offset - 1));
        assert(t.take(offset - 1) =~= t.take(offset).take(offset - 1));
        lemma_line_begin_of_prefix(s, t, offset - 1);
    }
}

/// A place in front of a range keeps its line and column when the range
/// is taken out of the text.
proof fn lemma_offset_without_range(s: Seq<u8>, start: int, end: int, line: int, column: int)
    requires
        is_offset_of(s, start, line, column),
        is_boundary(s, end),
        start <= end,
    ensures
        is_offset_of(s.take(start) + s.skip(end), start, line, column),
{
    let rest = s.take(start) + s.skip(end);
    assert(rest.take(start) =~= s.take(start));
    if start < rest.len() {
        assert(rest[start] == s[end]);
    }
    lemma_line_begin_of_prefix(s, rest, start);
    lemma_line_of(s, start);
    lemma_line_starts(s);
    let begin = line_begin(s, start);
    assert(rest.subrange(begin, start) =~= s.subrange(begin, start));
}

/// After a range was taken out of a document, its start still names the
/// place at which it began, and the text of the range put in there gives
/// the document back.
pub proof fn lemma_delete_insert_inverse(s: Seq<u8>, range: Range)
    requires
        valid_utf8(s),
        range_offsets(s, range) is Ok,
    ensures
        ({
            let start = range_offsets(s, range)->Ok_0.0;
            let end = range_offsets(s, range)->Ok_0.1;
            let rest = s.take(start) + s.skip(end);
            &&& 0 <= start < end <= s.len()
            &&& position_exists(rest, range.start.line as int, range.start.column as int)
            &&& position_offset(rest, range.start.line as int, range.start.column as int)
                == start
            &&& rest.take(start) + s.subrange(start, end) + rest.skip(start) == s
        }),
{
    let line = range.start.line as int;
    let column = range.start.column as int;
    let start = position_offset(s, line, column);
    let end = position_offset(s, range.end.line as int, range.end.column as int);
    lemma_position_exists(s, line, column);
    lemma_position_exists(s, range.end.line as int, range.end.column as int);
    let rest = s.take(start) + s.skip(end);
    lemma_offset_without_range(s, start, end, line, column);
    lemma_position_of_boundary(rest, start);
    lemma_position_offset(rest, start, line, column);
    assert(rest.take(start) + s.subrange(start, end) + rest.skip(start) =~= s);
}

} // verus!
