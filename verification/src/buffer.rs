//! The raw store: an append-only text together with the offsets at which its
//! lines begin.

use crate::text::{
    column_of, count_chars_in, is_boundary, is_offset_of, lemma_boundary_is_char_boundary,
    lemma_encode_concat, lemma_line_bounds, lemma_line_of, lemma_line_starts,
    lemma_line_starts_concat, lemma_offset_in_line, lemma_position_offset, line_bytes, line_count,
    line_end, line_of, line_start, line_starts, offset_of_column, position_exists, position_offset,
    LINE_BREAK,
};
use vstd::prelude::*;
use vstd::string::*;
use vstd::utf8::*;

verus! {

/// A text and the byte offsets at which each of its lines begins.
#[derive(Debug)]
pub struct Buffer {
    /// The text.
    pub content: String,
    /// The offset of the first byte of each line, in increasing order.
    pub line_starts: Vec<usize>,
}

impl View for Buffer {
    type V = Seq<u8>;

    /// The UTF-8 bytes of the content.
    open spec fn view(&self) -> Seq<u8> {
        encode_utf8(self.content@)
    }
}

/// True when `starts` holds, entry by entry, the line starts of `bytes`.
pub open spec fn holds_line_starts(starts: Seq<usize>, bytes: Seq<u8>) -> bool {
    &&& starts.len() == line_starts(bytes).len()
    &&& forall|i: int|
        0 <= i < starts.len() ==> #[trigger] starts[i] as int == line_starts(bytes)[i]
}

/// Appends to `starts` the offset behind each line break of `bytes`, each
/// moved by `base`.
fn record_line_starts(starts: &mut Vec<usize>, bytes: &[u8], base: usize)
    requires
        base + bytes@.len() <= usize::MAX,
    ensures
        final(starts)@.len() == old(starts)@.len() + line_starts(bytes@).len() - 1,
        forall|i: int| 0 <= i < old(starts)@.len() ==> final(starts)@[i] == old(starts)@[i],
        forall|j: int|
            0 < j < line_starts(bytes@).len() ==> #[trigger] final(starts)@[old(starts)@.len() + j
                - 1] as int == base + line_starts(bytes@)[j],
{
    let mut i: usize = 0;
    while i < bytes.len()
        invariant
            0 <= i <= bytes@.len(),
            base + bytes@.len() <= usize::MAX,
            starts@.len() == old(starts)@.len() + line_starts(bytes@.take(i as int)).len() - 1,
            forall|k: int| 0 <= k < old(starts)@.len() ==> starts@[k] == old(starts)@[k],
            forall|j: int|
                0 < j < line_starts(bytes@.take(i as int)).len() ==> #[trigger] starts@[old(
                    starts,
                )@.len() + j - 1] as int == base + line_starts(bytes@.take(i as int))[j],
        decreases bytes@.len() - i,
    {
        proof {
            assert(bytes@.take(i + 1).drop_last() =~= bytes@.take(i as int));
            lemma_line_starts(bytes@.take(i as int));
        }
        if bytes[i] == LINE_BREAK {
            starts.push(base + i + 1);
        }
        i = i + 1;
    }
    proof {
        assert(bytes@.take(i as int) =~= bytes@);
    }
}

impl Buffer {
    /// True when `line_starts` is what the content says it is, and the
    /// content's length in bytes is a `usize`.
    pub open spec fn wf(&self) -> bool {
        &&& holds_line_starts(self.line_starts@, self@)
        &&& self@.len() <= usize::MAX
    }

    /// Creates an empty store.
    pub fn new() -> (result: Self)
        ensures
            result.wf(),
            result.content@ == Seq::<char>::empty(),
            result@ == Seq::<u8>::empty(),
    {
        let mut line_starts: Vec<usize> = Vec::new();
        line_starts.push(0);
        Self { content: String::new(), line_starts }
    }

    /// Creates a store that holds `text`.
    pub fn from_text(text: &str) -> (result: Self)
        ensures
            result.wf(),
            result.content@ == text@,
            result@ == encode_utf8(text@),
    {
        let mut buffer = Self { content: text.to_owned(), line_starts: Vec::new() };
        buffer.compute_line_starts();
        buffer
    }

    /// Appends `text` to the content and records the lines that begin in it.
    pub fn append(&mut self, text: &str)
        requires
            old(self).wf(),
        ensures
            final(self).wf(),
            final(self).content@ == old(self).content@ + text@,
            final(self)@ == old(self)@ + encode_utf8(text@),
    {
        let start_offset = self.content.as_str().as_bytes().len();
        self.content.append(text);
        let new_len = self.content.as_str().as_bytes().len();
        let added = text.as_bytes();
        proof {
            lemma_encode_concat(old(self).content@, text@);
            assert(new_len == start_offset + added@.len());
        }
        record_line_starts(&mut self.line_starts, added, start_offset);
        proof {
            lemma_line_starts_concat(old(self)@, added@);
            lemma_line_starts(old(self)@);
            lemma_line_starts(added@);
            let before = line_starts(old(self)@);
            let behind = line_starts(added@).skip(1).map_values(|o: int| o + old(self)@.len());
            let all = line_starts(self@);
            assert(all =~= before + behind);
            assert forall|i: int| 0 <= i < self.line_starts@.len() implies (
            #[trigger] self.line_starts@[i]) as int == all[i] by {
                if i < before.len() {
                    assert(self.line_starts@[i] == old(self).line_starts@[i]);
                } else {
                    let j = i - before.len() + 1;
                    assert(self.line_starts@[old(self).line_starts@.len() + j - 1] as int
                        == start_offset + line_starts(added@)[j]);
                    assert(behind[j - 1] == line_starts(added@)[j] + old(self)@.len());
                }
            }
        }
    }

    /// Records the line starts of the content anew.
    fn compute_line_starts(&mut self)
        ensures
            final(self).wf(),
            final(self).content == old(self).content,
    {
        self.line_starts.clear();
        self.line_starts.push(0);
        let bytes = self.content.as_str().as_bytes();
        let len = bytes.len();
        record_line_starts(&mut self.line_starts, bytes, 0);
        proof {
            lemma_line_starts(bytes@);
            assert forall|i: int| 0 <= i < self.line_starts@.len() implies (
            #[trigger] self.line_starts@[i]) as int == line_starts(self@)[i] by {
                if i > 0 {
                    assert(self.line_starts@[1 + i - 1] as int == 0 + line_starts(bytes@)[i]);
                }
            }
        }
    }

    /// The number of lines: one more than the line breaks of the content.
    pub fn line_count(&self) -> (result: usize)
        ensures
            result == self.line_starts@.len(),
            self.wf() ==> result == line_count(self@),
    {
        proof {
            lemma_line_starts(self@);
        }
        self.line_starts.len()
    }

    /// The length of the content in bytes.
    pub fn len(&self) -> (result: usize)
        ensures
            result == self@.len(),
    {
        self.content.as_str().as_bytes().len()
    }

    /// True when the content is empty.
    pub fn is_empty(&self) -> (result: bool)
        ensures
            result == (self@.len() == 0),
            result == (self.content@.len() == 0),
    {
        proof {
            if self.content@.len() > 0 {
                encode_utf8_first_scalar(self.content@);
            }
        }
        self.content.as_str().as_bytes().len() == 0
    }

    /// The content between the byte offsets `start` and `end`, which lie
    /// between scalar values.
    pub fn slice(&self, start: usize, end: usize) -> (result: &str)
        requires
            start <= end,
            is_boundary(self@, start as int),
            is_boundary(self@, end as int),
        ensures
            encode_utf8(result@) == self@.subrange(start as int, end as int),
    {
        let whole = self.content.as_str();
        proof {
            encode_utf8_valid_utf8(self.content@);
            lemma_boundary_is_char_boundary(self@, end as int);
        }
        let (head, _) = whole.split_at(end);
        proof {
            valid_utf8_split(self@, end as int);
            assert(is_boundary(head.spec_bytes(), start as int));
            lemma_boundary_is_char_boundary(head.spec_bytes(), start as int);
        }
        let (_, range) = head.split_at(start);
        proof {
            assert(range.spec_bytes() =~= self@.subrange(start as int, end as int));
        }
        range
    }

    /// The offset at which line `line` begins.
    pub fn line_start(&self, line: usize) -> (result: Option<usize>)
        ensures
            result == if line < self.line_starts@.len() {
                Some(self.line_starts@[line as int])
            } else {
                None
            },
            self.wf() ==> (result is Some <==> line < line_count(self@)),
            self.wf() && result is Some ==> result.unwrap() == line_start(self@, line as int),
    {
        proof {
            lemma_line_starts(self@);
        }
        if line < self.line_starts.len() {
            Some(self.line_starts[line])
        } else {
            None
        }
    }

    /// The offset at which line `line` ends: that of its line break, or the
    /// length of the content for the last line.
    pub fn line_end(&self, line: usize) -> (result: Option<usize>)
        requires
            self.wf(),
        ensures
            result is Some <==> line < line_count(self@),
            result is Some ==> result.unwrap() == line_end(self@, line as int),
    {
        proof {
            lemma_line_starts(self@);
        }
        let count = self.line_starts.len();
        if line >= count {
            None
        } else if line + 1 < count {
            Some(self.line_starts[line + 1] - 1)
        } else {
            Some(self.len())
        }
    }

    /// The content of line `line`, without its line break.
    pub fn line_content(&self, line: usize) -> (result: Option<&str>)
        requires
            self.wf(),
        ensures
            result is Some <==> line < line_count(self@),
            result is Some ==> encode_utf8(result.unwrap()@) == line_bytes(self@, line as int),
    {
        let start = match self.line_start(line) {
            Some(start) => start,
            None => {
                return None;
            },
        };
        let end = match self.line_end(line) {
            Some(end) => end,
            None => {
                return None;
            },
        };
        proof {
            encode_utf8_valid_utf8(self.content@);
            lemma_line_bounds(self@, line as int);
        }
        Some(self.slice(start, end))
    }

    /// The line in which the byte offset `offset` lies: the last line that
    /// begins at or before it.
    pub fn line_at_offset(&self, offset: usize) -> (result: Option<usize>)
        requires
            self.wf(),
        ensures
            result is Some <==> offset <= self@.len(),
            result is Some ==> result.unwrap() == line_of(self@, offset as int),
            result is Some ==> line_start(self@, result.unwrap() as int) <= offset,
            result is Some && result.unwrap() + 1 < line_count(self@) ==> offset < line_start(
                self@,
                result.unwrap() + 1,
            ),
    {
        if offset > self.len() {
            return None;
        }
        proof {
            lemma_line_starts(self@);
            lemma_line_of(self@, offset as int);
        }
        // The answer lies in `low..high`: the entry at `low` is at or before
        // `offset`, the entry at `high`, if there is one, is behind it.
        let mut low: usize = 0;
        let mut high: usize = self.line_starts.len();
        while low + 1 < high
            invariant
                self.wf(),
                0 <= low < high <= self.line_starts@.len(),
                self.line_starts@[low as int] <= offset,
                high < self.line_starts@.len() ==> offset < self.line_starts@[high as int],
            decreases high - low,
        {
            let middle = low + (high - low) / 2;
            if self.line_starts[middle] <= offset {
                low = middle;
            } else {
                high = middle;
            }
        }
        proof {
            let l = line_of(self@, offset as int) as int;
            let ls = line_starts(self@);
            assert(self.line_starts@[low as int] as int == ls[low as int]);
            if low + 1 < ls.len() {
                assert(self.line_starts@[low + 1] as int == ls[low + 1]);
            }
            if l < low {
                assert(ls[l + 1] <= ls[low as int]) by {
                    if l + 1 < low {
                        assert(ls[l + 1] < ls[low as int]);
                    }
                }
            }
            if low < l {
                assert(ls[low + 1] <= ls[l]) by {
                    if low + 1 < l {
                        assert(ls[low + 1] < ls[l]);
                    }
                }
            }
        }
        Some(low)
    }

    /// The byte offset of the place that `line` and `column` name, where
    /// there is one.
    pub fn offset_at_position(&self, line: usize, column: usize) -> (result: Option<usize>)
        requires
            self.wf(),
        ensures
            result is Some <==> position_exists(self@, line as int, column as int),
            result is Some ==> is_offset_of(
                self@,
                result.unwrap() as int,
                line as int,
                column as int,
            ),
            result is Some ==> result.unwrap() == position_offset(
                self@,
                line as int,
                column as int,
            ),
    {
        let start = match self.line_start(line) {
            Some(start) => start,
            None => {
                return None;
            },
        };
        let end = match self.line_end(line) {
            Some(end) => end,
            None => {
                return None;
            },
        };
        let bytes = self.content.as_str().as_bytes();
        proof {
            encode_utf8_valid_utf8(self.content@);
            lemma_line_bounds(self@, line as int);
        }
        match offset_of_column(bytes, start, end, column) {
            Some(offset) => {
                proof {
                    lemma_offset_in_line(self@, line as int, offset as int);
                    lemma_position_offset(self@, offset as int, line as int, column as int);
                }
                Some(offset)
            },
            None => None,
        }
    }

    /// The line and column of the byte offset `offset`.
    pub fn position_at_offset(&self, offset: usize) -> (result: Option<(usize, usize)>)
        requires
            self.wf(),
        ensures
            result is Some <==> offset <= self@.len(),
            result is Some ==> result.unwrap().0 == line_of(self@, offset as int),
            result is Some ==> result.unwrap().1 == column_of(self@, offset as int),
    {
        let line = match self.line_at_offset(offset) {
            Some(line) => line,
            None => {
                return None;
            },
        };
        proof {
            lemma_line_starts(self@);
            lemma_line_of(self@, offset as int);
        }
        let start = self.line_starts[line];
        let bytes = self.content.as_str().as_bytes();
        let column = count_chars_in(bytes, start, offset);
        Some((line, column))
    }
}

impl Clone for Buffer {
    /// Copies the text and its line starts.
    fn clone(&self) -> (result: Self)
        ensures
            result.content@ == self.content@,
            result.line_starts@ == self.line_starts@,
            result@ == self@,
            self.wf() ==> result.wf(),
    {
        let line_starts = self.line_starts.clone();
        proof {
            assert(line_starts@ =~= self.line_starts@);
        }
        Self { content: self.content.clone(), line_starts }
    }
}

impl Default for Buffer {
    /// An empty store.
    fn default() -> (result: Self)
        ensures
            result.wf(),
            result@ == Seq::<u8>::empty(),
    {
        Self::new()
    }
}

} // verus!
