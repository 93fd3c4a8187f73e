//! The line index: built once from a text, then queried by offset.

use crate::laws::{lemma_number_of_lines, lemma_spans_are_ordered};
use crate::text::{
    contains_crlf, has_crlf, is_line_spans, line_count, line_ending_stops_at, partitions,
    LineSpan, CR, LF,
};
use vstd::prelude::*;
use vstd::string::StringSliceAdditionalSpecFns;

verus! {

/// Why a lookup failed.
#[derive(Debug)]
pub enum LinesError {
    /// The offset passed to [`Lines::position`] lies at or beyond the end of
    /// the text.
    OffsetOutOfBounds,
}

/// Where an offset lies: its line, and how far into that line.
#[derive(Debug)]
pub struct LinePosition {
    line: usize,
    offset: usize,
}

impl LinePosition {
    /// The line number as contracts see it.
    pub closed spec fn spec_line(&self) -> usize {
        self.line
    }

    /// The offset within the line as contracts see it.
    pub closed spec fn spec_offset(&self) -> usize {
        self.offset
    }

    /// Line number of the position, starting with 1.
    #[verifier::when_used_as_spec(spec_line)]
    pub fn line(&self) -> (n: usize)
        ensures
            n == self.line(),
    {
        self.line
    }

    /// Offset of the position from the start of its line, starting with 0.
    #[verifier::when_used_as_spec(spec_offset)]
    pub fn offset(&self) -> (n: usize)
        ensures
            n == self.offset(),
    {
        self.offset
    }
}

/// One line's extent as stored in the index.
#[derive(Debug)]
struct Line {
    start: usize,
    end: usize,
}

/// The spans that a stored sequence of lines stands for.
spec fn spans_of(lines: Seq<Line>) -> Seq<LineSpan> {
    Seq::new(
        lines.len(),
        |i: int| (LineSpan { start: lines[i].start as int, end: lines[i].end as int }),
    )
}

/// The offset one past the last span, 0 where there is none.
pub open spec fn covered_len(spans: Seq<LineSpan>) -> int {
    if spans.len() == 0 {
        0
    } else {
        spans.last().end
    }
}

/// Index of the lines of one text.
///
/// 1. Build it from a string with [`Lines::parse`].
/// 2. Call [`Lines::position`] with an offset to get a [`LinePosition`].
/// 3. Read the line number with [`LinePosition::line`] and the offset
///    within the line with [`LinePosition::offset`].
#[derive(Debug)]
pub struct Lines {
    lines: Vec<Line>,
}

impl View for Lines {
    type V = Seq<LineSpan>;

    /// The line spans in document order.
    closed spec fn view(&self) -> Seq<LineSpan> {
        spans_of(self.lines@)
    }
}

impl Lines {
    #[verifier::type_invariant]
    spec fn inv(&self) -> bool {
        partitions(self@, covered_len(self@))
    }

    /// Length of the indexed text.
    pub open spec fn text_len(&self) -> int {
        covered_len(self@)
    }

    /// Splits `input` into lines and stores where each one starts and ends.
    ///
    /// Line endings are taken to be consistent: if `input` holds `"\r\n"`
    /// anywhere, that pair is the line ending for all of it and a lone
    /// `"\n"` is ordinary text; otherwise `"\n"` is the line ending. A line
    /// ending at the very end of `input` does not open one more, empty line.
    pub fn parse(input: &str) -> (lines: Lines)
        ensures
            is_line_spans(input.spec_bytes(), lines@),
            lines@.len() == line_count(input.spec_bytes()),
            lines.text_len() == input.spec_bytes().len(),
    {
        let bytes = input.as_bytes();
        let crlf = contains_crlf(bytes);
        let mut lines: Vec<Line> = Vec::new();
        let mut start: usize = 0;
        let mut i: usize = 0;
        while i < bytes.len()
            invariant
                crlf == has_crlf(bytes@),
                start <= i <= bytes.len(),
                partitions(spans_of(lines@), start as int),
                forall|k: int|
                    0 <= k < lines.len() ==> line_ending_stops_at(
                        bytes@,
                        (#[trigger] spans_of(lines@)[k]).end,
                    ),
                forall|k: int, e: int|
                    #![trigger spans_of(lines@)[k], line_ending_stops_at(bytes@, e)]
                    0 <= k < lines.len() && spans_of(lines@)[k].start < e < spans_of(
                        lines@,
                    )[k].end ==> !line_ending_stops_at(bytes@, e),
                forall|e: int| start < e <= i ==> !line_ending_stops_at(bytes@, e),
            decreases bytes.len() - i,
        {
            let stops = bytes[i] == LF && (!crlf || (i > 0 && bytes[i - 1] == CR));
            i += 1;
            if stops {
                let ghost before = spans_of(lines@);
                lines.push(Line { start, end: i });
                assert(spans_of(lines@) =~= before.push(
                    LineSpan { start: start as int, end: i as int },
                ));
                start = i;
            }
        }
        if start < bytes.len() {
            let ghost before = spans_of(lines@);
            lines.push(Line { start, end: bytes.len() });
            assert(spans_of(lines@) =~= before.push(
                LineSpan { start: start as int, end: bytes.len() as int },
            ));
        }
        proof {
            lemma_number_of_lines(bytes@, spans_of(lines@));
        }
        Lines { lines }
    }

    /// Looks up the line that holds `input_offset` and the offset within it.
    ///
    /// Fails with [`LinesError::OffsetOutOfBounds`] exactly when
    /// `input_offset` is not less than the length of the text. Otherwise
    /// exactly one line holds the offset, and that line is returned.
    pub fn position(&self, input_offset: usize) -> (result: Result<LinePosition, LinesError>)
        ensures
            partitions(self@, self.text_len()),
            result is Ok <==> input_offset < self.text_len(),
            result matches Ok(p) ==> {
                &&& 1 <= p.line() <= self@.len()
                &&& self@[p.line() - 1].contains(input_offset as int)
                &&& p.offset() == input_offset - self@[p.line() - 1].start
                &&& forall|i: int|
                    0 <= i < self@.len() && (#[trigger] self@[i]).contains(input_offset as int)
                        ==> i == p.line() - 1
            },
            result matches Err(e) ==> {
                &&& e == LinesError::OffsetOutOfBounds
                &&& forall|i: int|
                    0 <= i < self@.len() ==> !(#[trigger] self@[i]).contains(input_offset as int)
            },
    {
        proof {
            use_type_invariant(self);
        }
        let n = self.lines.len();
        if n == 0 || input_offset >= self.lines[n - 1].end {
            proof {
                assert forall|i: int| 0 <= i < self@.len() implies !(#[trigger] self@[i]).contains(
                    input_offset as int,
                ) by {
                    if n > 0 && i < n - 1 {
                        lemma_spans_are_ordered(self@, self.text_len(), i, n - 1);
                    }
                }
            }
            return Err(LinesError::OffsetOutOfBounds);
        }
        let mut lo: usize = 0;
        let mut hi: usize = n - 1;
        while lo < hi
            invariant
                n == self.lines.len(),
                partitions(self@, covered_len(self@)),
                lo <= hi < n,
                self@[lo as int].start <= input_offset < self@[hi as int].end,
            decreases hi - lo,
        {
            let mid = lo + (hi - lo) / 2;
            if input_offset < self.lines[mid].end {
                hi = mid;
            } else {
                assert(self@[mid as int].end == self@[mid + 1].start);
                lo = mid + 1;
            }
        }
        proof {
            assert forall|i: int|
                0 <= i < self@.len() && (#[trigger] self@[i]).contains(
                    input_offset as int,
                ) implies i == lo by {
                if i < lo {
                    lemma_spans_are_ordered(self@, self.text_len(), i, lo as int);
                } else if lo < i {
                    lemma_spans_are_ordered(self@, self.text_len(), lo as int, i);
                }
            }
        }
        Ok(LinePosition { line: lo + 1, offset: input_offset - self.lines[lo].start })
    }

    /// The number of lines in the text.
    ///
    /// A line ending at the very end of the text does not count as the
    /// start of one more line.
    pub fn num_lines(&self) -> (n: usize)
        ensures
            n == self@.len(),
    {
        self.lines.len()
    }
}

} // verus!
