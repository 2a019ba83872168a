//! Line and column arithmetic over the UTF-8 bytes of a text.
//!
//! Everything here is stated byte by byte. A line break is the byte `0x0A`. A
//! byte starts a scalar value when it is not a UTF-8 continuation byte, so the
//! number of scalar values in a run of bytes is the number of such bytes in it.

use vstd::prelude::*;
use vstd::utf8::*;

verus! {

/// The line-break byte.
pub const LINE_BREAK: u8 = 0x0A;

/// True when `b` is the first byte of the encoding of a scalar value.
pub open spec fn is_char_start(b: u8) -> bool {
    !is_continuation_byte(b)
}

/// The number of line breaks in `s`.
pub open spec fn line_break_count(s: Seq<u8>) -> nat
    decreases s.len(),
{
    if s.len() == 0 {
        0
    } else {
        line_break_count(s.drop_last()) + if s.last() == LINE_BREAK {
            1nat
        } else {
            0nat
        }
    }
}

/// The number of scalar values that start in `s`.
pub open spec fn char_count(s: Seq<u8>) -> nat
    decreases s.len(),
{
    if s.len() == 0 {
        0
    } else {
        char_count(s.drop_last()) + if is_char_start(s.last()) {
            1nat
        } else {
            0nat
        }
    }
}

/// The offsets at which the lines of `s` begin: 0, and the offset that
/// follows each line break, in increasing order.
pub open spec fn line_starts(s: Seq<u8>) -> Seq<int>
    decreases s.len(),
{
    if s.len() == 0 {
        seq![0int]
    } else if s.last() == LINE_BREAK {
        line_starts(s.drop_last()).push(s.len() as int)
    } else {
        line_starts(s.drop_last())
    }
}

/// The number of lines of `s`: one more than its line breaks.
pub open spec fn line_count(s: Seq<u8>) -> nat {
    line_break_count(s) + 1
}

/// The offset at which line `line` of `s` begins.
pub open spec fn line_start(s: Seq<u8>, line: int) -> int
    recommends
        0 <= line < line_count(s),
{
    line_starts(s)[line]
}

/// The offset at which line `line` of `s` ends: that of its line break, or
/// the length of `s` for the last line.
pub open spec fn line_end(s: Seq<u8>, line: int) -> int
    recommends
        0 <= line < line_count(s),
{
    if line + 1 < line_starts(s).len() {
        line_starts(s)[line + 1] - 1
    } else {
        s.len() as int
    }
}

/// The bytes of line `line` of `s`, without its line break.
pub open spec fn line_bytes(s: Seq<u8>, line: int) -> Seq<u8>
    recommends
        0 <= line < line_count(s),
{
    s.subrange(line_start(s, line), line_end(s, line))
}

/// True when `offset` lies between two scalar values of `s`, or at one of
/// its ends.
pub open spec fn is_boundary(s: Seq<u8>, offset: int) -> bool {
    &&& 0 <= offset <= s.len()
    &&& offset < s.len() ==> is_char_start(s[offset])
}

/// The line in which `offset` lies: the number of line breaks before it.
pub open spec fn line_of(s: Seq<u8>, offset: int) -> nat
    recommends
        0 <= offset <= s.len(),
{
    line_break_count(s.take(offset))
}

/// The offset at which the line that holds `offset` begins.
pub open spec fn line_begin(s: Seq<u8>, offset: int) -> int
    recommends
        0 <= offset <= s.len(),
    decreases offset,
{
    if offset <= 0 {
        0
    } else if s[offset - 1] == LINE_BREAK {
        offset
    } else {
        line_begin(s, offset - 1)
    }
}

/// The column of `offset`: the number of scalar values between the start of
/// its line and `offset`.
pub open spec fn column_of(s: Seq<u8>, offset: int) -> nat
    recommends
        0 <= offset <= s.len(),
{
    char_count(s.subrange(line_begin(s, offset), offset))
}

/// True when line `line` exists in `s` and has at least `column` scalar
/// values.
pub open spec fn position_exists(s: Seq<u8>, line: int, column: int) -> bool {
    &&& 0 <= line < line_count(s)
    &&& 0 <= column <= char_count(line_bytes(s, line))
}

/// True when `offset` is the place in `s` that `line` and `column` name.
pub open spec fn is_offset_of(s: Seq<u8>, offset: int, line: int, column: int) -> bool {
    &&& is_boundary(s, offset)
    &&& line_of(s, offset) == line
    &&& column_of(s, offset) == column
}

/// The line breaks of a concatenation are those of its parts.
pub proof fn lemma_line_break_count_concat(a: Seq<u8>, b: Seq<u8>)
    ensures
        line_break_count(a + b) == line_break_count(a) + line_break_count(b),
    decreases b.len(),
{
    if b.len() == 0 {
        assert(a + b =~= a);
    } else {
        assert((a + b).drop_last() =~= a + b.drop_last());
        lemma_line_break_count_concat(a, b.drop_last());
    }
}

/// The scalar values of a concatenation are those of its parts.
pub proof fn lemma_char_count_concat(a: Seq<u8>, b: Seq<u8>)
    ensures
        char_count(a + b) == char_count(a) + char_count(b),
    decreases b.len(),
{
    if b.len() == 0 {
        assert(a + b =~= a);
    } else {
        assert((a + b).drop_last() =~= a + b.drop_last());
        lemma_char_count_concat(a, b.drop_last());
    }
}

/// A text has at most as many line breaks as bytes.
pub proof fn lemma_line_break_count_bound(s: Seq<u8>)
    ensures
        line_break_count(s) <= s.len(),
    decreases s.len(),
{
    if s.len() > 0 {
        lemma_line_break_count_bound(s.drop_last());
    }
}

/// Counting the line breaks of a prefix one byte further.
pub proof fn lemma_line_break_count_step(s: Seq<u8>, i: int)
    requires
        0 <= i < s.len(),
    ensures
        line_break_count(s.take(i + 1)) == line_break_count(s.take(i)) + if s[i] == LINE_BREAK {
            1nat
        } else {
            0nat
        },
{
    assert(s.take(i + 1).drop_last() =~= s.take(i));
}

/// Counting the scalar values of a range one byte further.
pub proof fn lemma_char_count_step(s: Seq<u8>, from: int, i: int)
    requires
        0 <= from <= i < s.len(),
    ensures
        char_count(s.subrange(from, i + 1)) == char_count(s.subrange(from, i)) + if is_char_start(
            s[i],
        ) {
            1nat
        } else {
            0nat
        },
{
    assert(s.subrange(from, i + 1).drop_last() =~= s.subrange(from, i));
}

/// Counting the line breaks of a range one byte further.
pub proof fn lemma_line_break_count_range_step(s: Seq<u8>, from: int, i: int)
    requires
        0 <= from <= i < s.len(),
    ensures
        line_break_count(s.subrange(from, i + 1)) == line_break_count(s.subrange(from, i))
            + if s[i] == LINE_BREAK {
            1nat
        } else {
            0nat
        },
{
    assert(s.subrange(from, i + 1).drop_last() =~= s.subrange(from, i));
}

/// The shape of `line_starts`: one entry per line, the first of them 0, each
/// later one just behind a line break, and as many line breaks before the
/// entry of a line as the line's number says.
pub proof fn lemma_line_starts(s: Seq<u8>)
    ensures
        line_starts(s).len() == line_count(s),
        line_starts(s)[0] == 0,
        forall|i: int|
            0 < i < line_starts(s).len() ==> 0 < #[trigger] line_starts(s)[i] <= s.len() && s[
                line_starts(s)[i] - 1] == LINE_BREAK,
        forall|i: int, j: int|
            0 <= i < j < line_starts(s).len() ==> #[trigger] line_starts(s)[i]
                < #[trigger] line_starts(s)[j],
        forall|i: int|
            0 <= i < line_starts(s).len() ==> line_break_count(
                s.take(#[trigger] line_starts(s)[i]),
            ) == i,
    decreases s.len(),
{
    if s.len() == 0 {
        assert(s.take(0) =~= s);
    } else {
        let p = s.drop_last();
        lemma_line_starts(p);
        let ls = line_starts(s);
        let lp = line_starts(p);
        assert forall|i: int| 0 <= i < ls.len() implies line_break_count(
            s.take(#[trigger] ls[i]),
        ) == i by {
            if i < lp.len() {
                assert(ls[i] == lp[i]);
                if i > 0 {
                    assert(lp[i] <= p.len());
                }
                assert(s.take(lp[i]) =~= p.take(lp[i]));
            } else {
                assert(ls[i] == s.len());
                assert(s.take(s.len() as int) =~= s);
            }
        }
        assert forall|i: int| 0 < i < ls.len() implies 0 < #[trigger] ls[i] <= s.len() && s[ls[i]
            - 1] == LINE_BREAK by {
            if i < lp.len() {
                assert(ls[i] == lp[i]);
                assert(s[lp[i] - 1] == p[lp[i] - 1]);
            }
        }
        assert forall|i: int, j: int| 0 <= i < j < ls.len() implies #[trigger] ls[i]
            < #[trigger] ls[j] by {
            if j < lp.len() {
                assert(ls[i] == lp[i] && ls[j] == lp[j]);
            } else {
                assert(ls[i] == lp[i]);
                if i > 0 {
                    assert(lp[i] <= p.len());
                }
            }
        }
    }
}

/// `line_starts` of a concatenation: the starts of the first part, then
/// those of the second part but its first, moved behind the first part.
pub proof fn lemma_line_starts_concat(a: Seq<u8>, b: Seq<u8>)
    ensures
        line_starts(a + b) =~= line_starts(a) + line_starts(b).skip(1).map_values(
            |o: int| o + a.len(),
        ),
    decreases b.len(),
{
    lemma_line_starts(b);
    if b.len() == 0 {
        assert(a + b =~= a);
    } else {
        let bp = b.drop_last();
        assert((a + b).drop_last() =~= a + bp);
        lemma_line_starts_concat(a, bp);
        lemma_line_starts(bp);
    }
}

/// The encoding of a concatenation is the concatenation of the encodings.
pub proof fn lemma_encode_concat(a: Seq<char>, b: Seq<char>)
    ensures
        encode_utf8(a + b) =~= encode_utf8(a) + encode_utf8(b),
    decreases a.len(),
{
    if a.len() == 0 {
        assert(a + b =~= b);
    } else {
        assert((a + b).drop_first() =~= a.drop_first() + b);
        lemma_encode_concat(a.drop_first(), b);
    }
}

/// In valid UTF-8 a boundary in the sense of this module is a character
/// boundary in the sense of `vstd::utf8`.
pub proof fn lemma_boundary_is_char_boundary(s: Seq<u8>, offset: int)
    requires
        valid_utf8(s),
        is_boundary(s, offset),
    ensures
        is_char_boundary(s, offset),
{
    if offset < s.len() {
        is_char_boundary_iff_not_is_continuation_byte(s, offset);
    } else {
        is_char_boundary_start_end_of_seq(s);
    }
}

/// Valid UTF-8 that is not empty begins with the first byte of a scalar
/// value.
pub proof fn lemma_valid_utf8_first_byte(s: Seq<u8>)
    requires
        valid_utf8(s),
        s.len() > 0,
    ensures
        is_char_start(s[0]),
{
}

/// In valid UTF-8 the offset behind a one-byte scalar value is a boundary.
pub proof fn lemma_boundary_after_ascii(s: Seq<u8>, i: int)
    requires
        valid_utf8(s),
        0 <= i < s.len(),
        s[i] <= 0x7f,
    ensures
        is_boundary(s, i + 1),
    decreases s.len(),
{
    let rest = pop_first_scalar(s);
    let k = length_of_first_scalar(s);
    assert(valid_first_scalar(s) && valid_utf8(rest));
    assert(1 <= k <= s.len());
    assert(rest.len() == s.len() - k);
    if i == 0 {
        assert(k == 1);
        if rest.len() > 0 {
            lemma_valid_utf8_first_byte(rest);
            assert(rest[0] == s[1]);
        }
    } else {
        is_char_boundary_iff_not_is_continuation_byte(s, i);
        assert(is_char_boundary(s, i));
        assert(is_char_boundary(rest, i - k));
        assert(i - k >= 0);
        assert(rest[i - k] == s[i]);
        lemma_boundary_after_ascii(rest, i - k);
        if i + 1 < s.len() {
            assert(rest[i - k + 1] == s[i + 1]);
        }
    }
}

/// A range of valid UTF-8 between two boundaries is valid UTF-8.
pub proof fn lemma_valid_utf8_range(s: Seq<u8>, from: int, to: int)
    requires
        valid_utf8(s),
        from <= to,
        is_boundary(s, from),
        is_boundary(s, to),
    ensures
        valid_utf8(s.subrange(from, to)),
{
    lemma_boundary_is_char_boundary(s, to);
    valid_utf8_split(s, to);
    let head = s.subrange(0, to);
    assert(is_boundary(head, from));
    lemma_boundary_is_char_boundary(head, from);
    valid_utf8_split(head, from);
    assert(head.subrange(from, head.len() as int) =~= s.subrange(from, to));
}

/// Where an offset lies among the line starts: at or behind the start of
/// its own line, which is also where `line_begin` puts it, and before the
/// start of the next line.
pub proof fn lemma_line_of(s: Seq<u8>, offset: int)
    requires
        0 <= offset <= s.len(),
    ensures
        line_of(s, offset) < line_count(s),
        line_start(s, line_of(s, offset) as int) <= offset,
        line_of(s, offset) + 1 < line_count(s) ==> offset < line_start(
            s,
            line_of(s, offset) as int + 1,
        ),
        line_begin(s, offset) == line_start(s, line_of(s, offset) as int),
    decreases offset,
{
    let a = s.take(offset);
    let b = s.skip(offset);
    assert(a + b =~= s);
    lemma_line_starts_concat(a, b);
    lemma_line_starts(a);
    lemma_line_starts(b);
    lemma_line_starts(s);
    lemma_line_break_count_concat(a, b);
    let l = line_of(s, offset) as int;
    assert(line_starts(s)[l] == line_starts(a)[l]);
    if l + 1 < line_count(s) {
        assert(line_starts(s)[l + 1] == line_starts(b)[1] + offset);
    }
    if offset > 0 {
        assert(a.drop_last() =~= s.take(offset - 1));
        if s[offset - 1] != LINE_BREAK {
            lemma_line_of(s, offset - 1);
        }
    }
}

/// A line begins and ends inside the text, begins no later than it ends,
/// and, in valid UTF-8, both ends lie between scalar values.
pub proof fn lemma_line_bounds(s: Seq<u8>, line: int)
    requires
        0 <= line < line_count(s),
    ensures
        0 <= line_start(s, line) <= line_end(s, line) <= s.len(),
        valid_utf8(s) ==> is_boundary(s, line_start(s, line)) && is_boundary(
            s,
            line_end(s, line),
        ),
{
    lemma_line_starts(s);
    let ls = line_starts(s);
    if line + 1 < ls.len() {
        assert(ls[line] < ls[line + 1]);
        assert(s[ls[line + 1] - 1] == LINE_BREAK);
    }
    if line > 0 {
        assert(0 < ls[line] <= s.len());
    }
    if valid_utf8(s) {
        if line > 0 {
            lemma_boundary_after_ascii(s, ls[line] - 1);
        }
    }
}

/// An offset between the start and the end of a line lies in that line.
pub proof fn lemma_offset_in_line(s: Seq<u8>, line: int, offset: int)
    requires
        0 <= line < line_count(s),
        line_start(s, line) <= offset <= line_end(s, line),
    ensures
        line_of(s, offset) == line,
        line_begin(s, offset) == line_start(s, line),
{
    lemma_line_starts(s);
    lemma_line_bounds(s, line);
    lemma_line_of(s, offset);
    let ls = line_starts(s);
    let l = line_of(s, offset) as int;
    if l < line {
        if l + 1 < line {
            assert(ls[l + 1] < ls[line]);
        }
    }
    if l > line {
        if line + 1 < l {
            assert(ls[line + 1] < ls[l]);
        }
    }
}

/// A run without a line break has none to count.
pub proof fn lemma_no_line_break(s: Seq<u8>)
    requires
        forall|i: int| 0 <= i < s.len() ==> s[i] != LINE_BREAK,
    ensures
        line_break_count(s) == 0,
    decreases s.len(),
{
    if s.len() > 0 {
        lemma_no_line_break(s.drop_last());
    }
}

/// The offset behind a line break is the start of the line that it lies in.
pub proof fn lemma_line_start_found(s: Seq<u8>, offset: int)
    requires
        0 < offset <= s.len(),
        s[offset - 1] == LINE_BREAK,
    ensures
        line_of(s, offset) < line_count(s),
        line_start(s, line_of(s, offset) as int) == offset,
{
    lemma_line_of(s, offset);
}

/// The first line break at or behind the start of a line, or else the end
/// of the text, is the end of that line.
pub proof fn lemma_line_end_found(s: Seq<u8>, line: int, end: int)
    requires
        0 <= line < line_count(s),
        line_start(s, line) <= end <= s.len(),
        forall|i: int| line_start(s, line) <= i < end ==> s[i] != LINE_BREAK,
        end < s.len() ==> s[end] == LINE_BREAK,
    ensures
        line_end(s, line) == end,
{
    let start = line_start(s, line);
    lemma_line_starts(s);
    lemma_line_bounds(s, line);
    assert(s.take(end) =~= s.take(start) + s.subrange(start, end));
    lemma_line_break_count_concat(s.take(start), s.subrange(start, end));
    lemma_no_line_break(s.subrange(start, end));
    if end == s.len() {
        assert(s.take(end) =~= s);
    } else {
        lemma_line_break_count_step(s, end);
        lemma_line_start_found(s, end + 1);
    }
}

/// The start of a line that begins in the middle part of a text of three
/// parts, counted from the start of the text.
pub proof fn lemma_line_start_in_part(a: Seq<u8>, b: Seq<u8>, c: Seq<u8>, line: int)
    requires
        1 <= line < line_count(b),
    ensures
        line_break_count(a) + line < line_count(a + b + c),
        line_start(a + b + c, line_break_count(a) + line) == a.len() + line_start(b, line),
{
    lemma_line_starts_concat(a, b + c);
    lemma_line_starts_concat(b, c);
    lemma_line_starts(a);
    lemma_line_starts(b);
    lemma_line_starts(b + c);
    lemma_line_break_count_concat(b, c);
    lemma_line_break_count_concat(a, b + c);
    assert(a + (b + c) =~= a + b + c);
    let shifted = line_starts(b + c).skip(1).map_values(|o: int| o + a.len());
    assert(line_starts(a + b + c) =~= line_starts(a) + shifted);
    assert(shifted[line - 1] == line_starts(b + c)[line] + a.len());
    assert(line_starts(b + c)[line] == line_starts(b)[line]);
}

/// A text is what lies in front of a range, the range, and what lies
/// behind it.
pub proof fn lemma_three_parts(s: Seq<u8>, from: int, to: int)
    requires
        0 <= from <= to <= s.len(),
    ensures
        s == s.take(from) + s.subrange(from, to) + s.skip(to),
{
    assert(s =~= s.take(from) + s.subrange(from, to) + s.skip(to));
}

/// In valid UTF-8, the end of a range that begins at a boundary and is
/// itself valid UTF-8 is a boundary.
pub proof fn lemma_boundary_behind_valid(s: Seq<u8>, from: int, to: int)
    requires
        valid_utf8(s),
        is_boundary(s, from),
        from <= to <= s.len(),
        valid_utf8(s.subrange(from, to)),
    ensures
        is_boundary(s, to),
    decreases to - from,
{
    if from < to && to < s.len() {
        lemma_boundary_is_char_boundary(s, from);
        valid_utf8_split(s, from);
        let tail = s.subrange(from, s.len() as int);
        let part = s.subrange(from, to);
        assert(part =~= tail.take(to - from));
        let k = length_of_first_scalar(part);
        assert(tail[0] == part[0]);
        assert(k == length_of_first_scalar(tail));
        assert(valid_first_scalar(part));
        assert(k <= part.len());
        is_char_boundary_start_end_of_seq(pop_first_scalar(tail));
        assert(is_char_boundary(tail, k));
        assert(pop_first_scalar(tail) =~= s.subrange(from + k, s.len() as int));
        if from + k < s.len() {
            lemma_valid_utf8_first_byte(pop_first_scalar(tail));
            assert(pop_first_scalar(tail)[0] == s[from + k]);
        }
        assert(is_boundary(s, from + k));
        assert(pop_first_scalar(part) =~= s.subrange(from + k, to));
        lemma_boundary_behind_valid(s, from + k, to);
    }
}

/// The scalar values of a range, counted in two parts.
pub proof fn lemma_char_count_split(s: Seq<u8>, from: int, middle: int, to: int)
    requires
        0 <= from <= middle <= to <= s.len(),
    ensures
        char_count(s.subrange(from, to)) == char_count(s.subrange(from, middle)) + char_count(
            s.subrange(middle, to),
        ),
{
    assert(s.subrange(from, to) =~= s.subrange(from, middle) + s.subrange(middle, to));
    lemma_char_count_concat(s.subrange(from, middle), s.subrange(middle, to));
}

/// The line breaks of a prefix, counted in two parts.
pub proof fn lemma_line_break_count_split(s: Seq<u8>, middle: int, to: int)
    requires
        0 <= middle <= to <= s.len(),
    ensures
        line_break_count(s.take(to)) == line_break_count(s.take(middle)) + line_break_count(
            s.subrange(middle, to),
        ),
{
    assert(s.take(to) =~= s.take(middle) + s.subrange(middle, to));
    lemma_line_break_count_concat(s.take(middle), s.subrange(middle, to));
}

/// A run that begins with the first byte of a scalar value holds at least
/// one scalar value.
pub proof fn lemma_char_count_positive(s: Seq<u8>)
    requires
        s.len() > 0,
        is_char_start(s[0]),
    ensures
        char_count(s) >= 1,
{
    let first = s.take(1);
    assert(s =~= first + s.skip(1));
    lemma_char_count_concat(first, s.skip(1));
    assert(first.drop_last() =~= Seq::<u8>::empty());
    assert(char_count(first.drop_last()) == 0);
    assert(first.last() == s[0]);
}

/// Of two boundaries in one line, the later one has the greater column.
pub proof fn lemma_column_increases(s: Seq<u8>, a: int, b: int)
    requires
        is_boundary(s, a),
        is_boundary(s, b),
        a < b,
        line_of(s, a) == line_of(s, b),
    ensures
        column_of(s, a) < column_of(s, b),
{
    lemma_line_of(s, a);
    lemma_line_of(s, b);
    lemma_line_starts(s);
    let start = line_begin(s, a);
    assert(0 <= start <= a);
    lemma_char_count_split(s, start, a, b);
    lemma_char_count_positive(s.subrange(a, b));
}

/// No two places of a text have the same line and column.
pub proof fn lemma_offset_unique(s: Seq<u8>, a: int, b: int, line: int, column: int)
    requires
        is_offset_of(s, a, line, column),
        is_offset_of(s, b, line, column),
    ensures
        a == b,
{
    if a < b {
        lemma_column_increases(s, a, b);
    } else if b < a {
        lemma_column_increases(s, b, a);
    }
}

/// The line and column of a boundary name a place that exists.
pub proof fn lemma_position_of_boundary(s: Seq<u8>, offset: int)
    requires
        is_boundary(s, offset),
    ensures
        position_exists(s, line_of(s, offset) as int, column_of(s, offset) as int),
        is_offset_of(s, offset, line_of(s, offset) as int, column_of(s, offset) as int),
{
    lemma_line_of(s, offset);
    lemma_line_starts(s);
    let line = line_of(s, offset) as int;
    lemma_line_bounds(s, line);
    let start = line_start(s, line);
    let end = line_end(s, line);
    assert(offset <= end);
    lemma_char_count_split(s, start, offset, end);
}

/// The byte offset of the place that `line` and `column` name. It means
/// something where `position_exists` holds.
pub open spec fn position_offset(s: Seq<u8>, line: int, column: int) -> int {
    choose|offset: int| is_offset_of(s, offset, line, column)
}

/// `position_offset` is the one place that a line and a column name.
pub proof fn lemma_position_offset(s: Seq<u8>, offset: int, line: int, column: int)
    requires
        is_offset_of(s, offset, line, column),
    ensures
        position_offset(s, line, column) == offset,
{
    lemma_offset_unique(s, offset, position_offset(s, line, column), line, column);
}

/// True when `b` is the first byte of the encoding of a scalar value.
pub fn byte_is_char_start(b: u8) -> (result: bool)
    ensures
        result == is_char_start(b),
{
    b < 0x80 || b > 0xbf
}

/// Counts the line breaks of `bytes[from..to]`.
pub fn count_line_breaks_in(bytes: &[u8], from: usize, to: usize) -> (result: usize)
    requires
        from <= to <= bytes@.len(),
    ensures
        result == line_break_count(bytes@.subrange(from as int, to as int)),
{
    let mut count: usize = 0;
    let mut i: usize = from;
    while i < to
        invariant
            from <= i <= to <= bytes@.len(),
            count == line_break_count(bytes@.subrange(from as int, i as int)),
            count <= i - from,
        decreases to - i,
    {
        proof {
            lemma_line_break_count_range_step(bytes@, from as int, i as int);
        }
        if bytes[i] == LINE_BREAK {
            count = count + 1;
        }
        i = i + 1;
    }
    count
}

/// Counts the scalar values that start in `bytes[from..to]`.
pub fn count_chars_in(bytes: &[u8], from: usize, to: usize) -> (result: usize)
    requires
        from <= to <= bytes@.len(),
    ensures
        result == char_count(bytes@.subrange(from as int, to as int)),
{
    let mut count: usize = 0;
    let mut i: usize = from;
    while i < to
        invariant
            from <= i <= to <= bytes@.len(),
            count == char_count(bytes@.subrange(from as int, i as int)),
            count <= i - from,
        decreases to - i,
    {
        proof {
            lemma_char_count_step(bytes@, from as int, i as int);
        }
        if byte_is_char_start(bytes[i]) {
            count = count + 1;
        }
        i = i + 1;
    }
    count
}

/// Finds in `bytes[start..end]` the offset in front of which `column`
/// scalar values start, and which does not split a scalar value.
pub fn offset_of_column(bytes: &[u8], start: usize, end: usize, column: usize) -> (result: Option<
    usize,
>)
    requires
        start <= end <= bytes@.len(),
    ensures
        result is Some <==> column <= char_count(bytes@.subrange(start as int, end as int)),
        result is Some ==> start <= result.unwrap() <= end,
        result is Some ==> char_count(bytes@.subrange(start as int, result.unwrap() as int))
            == column,
        result is Some && result.unwrap() < end ==> is_char_start(bytes@[result.unwrap() as int]),
{
    let mut offset: usize = start;
    let mut count: usize = 0;
    loop
        invariant
            start <= offset <= end <= bytes@.len(),
            count == char_count(bytes@.subrange(start as int, offset as int)),
            count <= offset - start,
            count <= column,
        decreases end - offset,
    {
        proof {
            assert(bytes@.subrange(start as int, end as int) =~= bytes@.subrange(
                start as int,
                offset as int,
            ) + bytes@.subrange(offset as int, end as int));
            lemma_char_count_concat(
                bytes@.subrange(start as int, offset as int),
                bytes@.subrange(offset as int, end as int),
            );
            if offset < end {
                lemma_char_count_step(bytes@, start as int, offset as int);
            }
        }
        if offset < end && !byte_is_char_start(bytes[offset]) {
            offset = offset + 1;
        } else if count == column {
            return Some(offset);
        } else if offset == end {
            return None;
        } else {
            count = count + 1;
            offset = offset + 1;
        }
    }
}

/// True when `offset` lies between two scalar values of `bytes`, or at one
/// of its ends.
pub fn at_boundary(bytes: &[u8], offset: usize) -> (result: bool)
    ensures
        result == is_boundary(bytes@, offset as int),
{
    if offset < bytes.len() {
        byte_is_char_start(bytes[offset])
    } else {
        offset == bytes.len()
    }
}

/// Finds the offset at which line `line` of `bytes` begins.
pub fn find_line_start(bytes: &[u8], line: usize) -> (result: Option<usize>)
    ensures
        result is Some <==> line < line_count(bytes@),
        result is Some ==> result.unwrap() == line_start(bytes@, line as int),
{
    proof {
        lemma_line_starts(bytes@);
    }
    if line == 0 {
        return Some(0);
    }
    let mut i: usize = 0;
    let mut seen: usize = 0;
    while i < bytes.len()
        invariant
            0 <= i <= bytes@.len(),
            seen == line_break_count(bytes@.take(i as int)),
            seen < line,
        decreases bytes@.len() - i,
    {
        proof {
            lemma_line_break_count_step(bytes@, i as int);
        }
        if bytes[i] == LINE_BREAK {
            seen = seen + 1;
            if seen == line {
                proof {
                    lemma_line_start_found(bytes@, i + 1);
                }
                return Some(i + 1);
            }
        }
        i = i + 1;
    }
    proof {
        assert(bytes@.take(i as int) =~= bytes@);
    }
    None
}

/// Finds the first line break of `bytes` at or behind `start`, or else the
/// end of `bytes`.
pub fn find_line_end(bytes: &[u8], start: usize) -> (result: usize)
    requires
        start <= bytes@.len(),
    ensures
        start <= result <= bytes@.len(),
        forall|i: int| start <= i < result ==> bytes@[i] != LINE_BREAK,
        result < bytes@.len() ==> bytes@[result as int] == LINE_BREAK,
{
    let mut end: usize = start;
    while end < bytes.len() && bytes[end] != LINE_BREAK
        invariant
            start <= end <= bytes@.len(),
            forall|i: int| start <= i < end ==> bytes@[i] != LINE_BREAK,
        decreases bytes@.len() - end,
    {
        end = end + 1;
    }
    end
}

/// Finds the offset at which the line that holds `offset` begins.
pub fn find_line_begin(bytes: &[u8], offset: usize) -> (result: usize)
    requires
        offset <= bytes@.len(),
    ensures
        result == line_begin(bytes@, offset as int),
        result <= offset,
{
    let mut begin: usize = offset;
    while begin > 0 && bytes[begin - 1] != LINE_BREAK
        invariant
            0 <= begin <= offset <= bytes@.len(),
            line_begin(bytes@, begin as int) == line_begin(bytes@, offset as int),
        decreases begin,
    {
        begin = begin - 1;
    }
    begin
}

} // verus!
