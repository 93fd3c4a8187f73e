//! The mathematical model: what the line spans of a text are.

use vstd::prelude::*;

verus! {

/// Carriage return, the first byte of the two-byte line ending.
pub const CR: u8 = 13;

/// Line feed, the one-byte line ending and the last byte of the two-byte one.
pub const LF: u8 = 10;

/// The half-open range of offsets `[start, end)` that one line occupies,
/// its line ending included.
pub struct LineSpan {
    pub start: int,
    pub end: int,
}

impl LineSpan {
    /// Whether `offset` lies in this span.
    pub open spec fn contains(self, offset: int) -> bool {
        self.start <= offset < self.end
    }
}

/// The pair `"\r\n"` occupies the offsets `i` and `i + 1` of `text`.
pub open spec fn crlf_at(text: Seq<u8>, i: int) -> bool {
    &&& 0 <= i
    &&& i + 1 < text.len()
    &&& text[i] == CR
    &&& text[i + 1] == LF
}

/// The pair `"\r\n"` occurs somewhere in `text`.
pub open spec fn has_crlf(text: Seq<u8>) -> bool {
    exists|i: int| crlf_at(text, i)
}

/// A line ending of `text` stops just before offset `e`.
///
/// Which byte sequence counts as the line ending is decided once for the
/// whole text: `"\r\n"` if `text` holds that pair anywhere, else `"\n"`.
pub open spec fn line_ending_stops_at(text: Seq<u8>, e: int) -> bool {
    if has_crlf(text) {
        crlf_at(text, e - 2)
    } else {
        0 < e <= text.len() && text[e - 1] == LF
    }
}

/// `spans` cuts the offsets `0..len` into consecutive non-empty ranges:
/// the first starts at 0, each starts where the one before it ends, and
/// the last ends at `len`. No span at all stands for `len == 0`.
pub open spec fn partitions(spans: Seq<LineSpan>, len: int) -> bool {
    &&& forall|i: int| 0 <= i < spans.len() ==> (#[trigger] spans[i]).start < spans[i].end
    &&& forall|i: int, j: int|
        0 <= i && j == i + 1 && j < spans.len() ==> (#[trigger] spans[i]).end == (
        #[trigger] spans[j]).start
    &&& if spans.len() == 0 {
        len == 0
    } else {
        spans[0].start == 0 && spans.last().end == len
    }
}

/// `spans` are the lines of `text`: they partition it, every span but the
/// last stops right after a line ending, and no line ending stops strictly
/// inside a span.
pub open spec fn is_line_spans(text: Seq<u8>, spans: Seq<LineSpan>) -> bool {
    &&& partitions(spans, text.len() as int)
    &&& forall|i: int|
        0 <= i < spans.len() - 1 ==> line_ending_stops_at(text, (#[trigger] spans[i]).end)
    &&& forall|i: int, e: int|
        #![trigger spans[i], line_ending_stops_at(text, e)]
        0 <= i < spans.len() && spans[i].start < e < spans[i].end ==> !line_ending_stops_at(
            text,
            e,
        )
}

/// The number of offsets `e` in `1..=n` at which a line ending of `text`
/// stops.
pub open spec fn line_endings_up_to(text: Seq<u8>, n: int) -> nat
    decreases n,
{
    if n <= 0 {
        0
    } else {
        line_endings_up_to(text, n - 1) + if line_ending_stops_at(text, n) {
            1nat
        } else {
            0nat
        }
    }
}

/// The number of lines of `text`: one for each line ending, and one more
/// for what follows the last of them, if anything does.
pub open spec fn line_count(text: Seq<u8>) -> nat {
    let len = text.len() as int;
    line_endings_up_to(text, len) + if len > 0 && !line_ending_stops_at(text, len) {
        1nat
    } else {
        0nat
    }
}

/// Scans `bytes` for the pair `"\r\n"`.
pub fn contains_crlf(bytes: &[u8]) -> (found: bool)
    ensures
        found == has_crlf(bytes@),
{
    let mut i: usize = 1;
    while i < bytes.len()
        invariant
            1 <= i,
            forall|k: int| 0 <= k < i - 1 ==> !crlf_at(bytes@, k),
        decreases bytes.len() - i,
    {
        if bytes[i - 1] == CR && bytes[i] == LF {
            assert(crlf_at(bytes@, i - 1));
            return true;
        }
        i += 1;
    }
    false
}

} // verus!
