//! What holds of the line spans of every text.

use crate::text::{
    crlf_at, has_crlf, is_line_spans, line_count, line_ending_stops_at, line_endings_up_to,
    partitions, LineSpan, CR, LF,
};
use vstd::prelude::*;

verus! {

/// In a partition a later span starts no earlier than an earlier one ends.
pub proof fn lemma_spans_are_ordered(spans: Seq<LineSpan>, len: int, i: int, j: int)
    requires
        partitions(spans, len),
        0 <= i < j < spans.len(),
    ensures
        spans[i].end <= spans[j].start,
    decreases j - i,
{
    if i + 1 < j {
        lemma_spans_are_ordered(spans, len, i, j - 1);
    }
}

/// Every span of a partition lies within `0..len`.
pub proof fn lemma_span_within_bounds(spans: Seq<LineSpan>, len: int, i: int)
    requires
        partitions(spans, len),
        0 <= i < spans.len(),
    ensures
        0 <= spans[i].start < spans[i].end <= len,
{
    if 0 < i {
        lemma_spans_are_ordered(spans, len, 0, i);
    }
    if i < spans.len() - 1 {
        lemma_spans_are_ordered(spans, len, i, spans.len() - 1);
    }
}

/// Walks the partition from span `k` on to the span that holds `offset`.
proof fn lemma_find_span(spans: Seq<LineSpan>, len: int, offset: int, k: int) -> (i: int)
    requires
        partitions(spans, len),
        0 <= k < spans.len(),
        spans[k].start <= offset < len,
    ensures
        k <= i < spans.len(),
        spans[i].contains(offset),
    decreases spans.len() - k,
{
    if offset < spans[k].end {
        k
    } else {
        lemma_find_span(spans, len, offset, k + 1)
    }
}

/// Each offset within a text lies in one of its lines, and in one only:
/// the lines leave no gap and do not overlap.
pub proof fn lemma_offset_in_exactly_one_line(text: Seq<u8>, spans: Seq<LineSpan>, offset: int)
    requires
        is_line_spans(text, spans),
        0 <= offset < text.len(),
    ensures
        exists|i: int| 0 <= i < spans.len() && (#[trigger] spans[i]).contains(offset),
        forall|i: int, j: int|
            0 <= i < spans.len() && 0 <= j < spans.len() && (#[trigger] spans[i]).contains(offset)
                && (#[trigger] spans[j]).contains(offset) ==> i == j,
{
    let len = text.len() as int;
    let found = lemma_find_span(spans, len, offset, 0);
    assert(spans[found].contains(offset));
    assert forall|i: int, j: int|
        0 <= i < spans.len() && 0 <= j < spans.len() && (#[trigger] spans[i]).contains(offset) && (
        #[trigger] spans[j]).contains(offset) implies i == j by {
        if i < j {
            lemma_spans_are_ordered(spans, len, i, j);
        } else if j < i {
            lemma_spans_are_ordered(spans, len, j, i);
        }
    }
}

/// An offset at or beyond the end of a text lies in none of its lines.
pub proof fn lemma_offset_beyond_end_in_no_line(text: Seq<u8>, spans: Seq<LineSpan>, offset: int)
    requires
        is_line_spans(text, spans),
        text.len() <= offset,
    ensures
        forall|i: int| 0 <= i < spans.len() ==> !(#[trigger] spans[i]).contains(offset),
{
    assert forall|i: int| 0 <= i < spans.len() implies !(#[trigger] spans[i]).contains(offset) by {
        lemma_span_within_bounds(spans, text.len() as int, i);
    }
}

/// Two ways of cutting one text into lines agree on every span that both
/// have: the spans start together, and the one that stopped first would
/// stop strictly inside the other.
proof fn lemma_spans_agree_at(text: Seq<u8>, a: Seq<LineSpan>, b: Seq<LineSpan>, k: int)
    requires
        is_line_spans(text, a),
        is_line_spans(text, b),
        0 <= k < a.len(),
        k < b.len(),
    ensures
        a[k] == b[k],
    decreases k,
{
    let len = text.len() as int;
    if k > 0 {
        lemma_spans_agree_at(text, a, b, k - 1);
    }
    assert(a[k].start == b[k].start);
    lemma_span_within_bounds(a, len, k);
    lemma_span_within_bounds(b, len, k);
}

/// One way of cutting a text into lines has no more spans than another.
proof fn lemma_no_more_spans(text: Seq<u8>, a: Seq<LineSpan>, b: Seq<LineSpan>)
    requires
        is_line_spans(text, a),
        is_line_spans(text, b),
    ensures
        b.len() <= a.len(),
{
    let len = text.len() as int;
    if a.len() < b.len() {
        let k = a.len() as int;
        lemma_span_within_bounds(b, len, k);
        if k > 0 {
            lemma_spans_agree_at(text, a, b, k - 1);
        }
    }
}

/// The lines of a text are determined by the text: two sequences of spans
/// that both cut it into lines are the same sequence.
pub proof fn lemma_line_spans_are_unique(text: Seq<u8>, a: Seq<LineSpan>, b: Seq<LineSpan>)
    requires
        is_line_spans(text, a),
        is_line_spans(text, b),
    ensures
        a == b,
{
    lemma_no_more_spans(text, a, b);
    lemma_no_more_spans(text, b, a);
    assert forall|k: int| 0 <= k < a.len() implies a[k] == b[k] by {
        lemma_spans_agree_at(text, a, b, k);
    }
    assert(a =~= b);
}

/// In a text that holds `"\r\n"` anywhere, every line but the last stops
/// right after a `"\r\n"`, and a `"\n"` that no `"\r"` precedes is followed
/// by more of the same line.
pub proof fn lemma_crlf_is_the_line_ending_throughout(text: Seq<u8>, spans: Seq<LineSpan>)
    requires
        is_line_spans(text, spans),
        has_crlf(text),
    ensures
        forall|i: int| 0 <= i < spans.len() - 1 ==> crlf_at(text, (#[trigger] spans[i]).end - 2),
        forall|p: int|
            0 <= p && p + 1 < text.len() && #[trigger] text[p] == LF && !(p > 0 && text[p - 1]
                == CR) ==> exists|i: int|
                0 <= i < spans.len() && (#[trigger] spans[i]).contains(p) && spans[i].contains(
                    p + 1,
                ),
{
    let len = text.len() as int;
    assert forall|p: int|
        0 <= p && p + 1 < text.len() && #[trigger] text[p] == LF && !(p > 0 && text[p - 1]
            == CR) implies exists|i: int|
        0 <= i < spans.len() && (#[trigger] spans[i]).contains(p) && spans[i].contains(p + 1) by {
        let i = lemma_find_span(spans, len, p, 0);
        lemma_span_within_bounds(spans, len, i);
        assert(spans[i].end == p + 1 ==> line_ending_stops_at(text, spans[i].end));
        assert(spans[i].contains(p) && spans[i].contains(p + 1));
    }
}

/// Where no line ending stops in `from + 1..=to`, the count does not move.
proof fn lemma_no_endings_between(text: Seq<u8>, from: int, to: int)
    requires
        0 <= from <= to,
        forall|e: int| from < e <= to ==> !line_ending_stops_at(text, e),
    ensures
        line_endings_up_to(text, to) == line_endings_up_to(text, from),
    decreases to - from,
{
    if from < to {
        lemma_no_endings_between(text, from, to - 1);
    }
}

/// As many line endings stop at or before the start of span `k` as there
/// are spans before it.
proof fn lemma_endings_before_span(text: Seq<u8>, spans: Seq<LineSpan>, k: int)
    requires
        is_line_spans(text, spans),
        0 <= k < spans.len(),
    ensures
        line_endings_up_to(text, spans[k].start) == k,
    decreases k,
{
    if k > 0 {
        lemma_endings_before_span(text, spans, k - 1);
        lemma_span_within_bounds(spans, text.len() as int, k - 1);
        lemma_no_endings_between(text, spans[k - 1].start, spans[k - 1].end - 1);
        assert(line_ending_stops_at(text, spans[k - 1].end));
    }
}

/// A text has one line for each of its line endings, and one more for what
/// follows the last of them, if anything does.
pub proof fn lemma_number_of_lines(text: Seq<u8>, spans: Seq<LineSpan>)
    requires
        is_line_spans(text, spans),
    ensures
        spans.len() == line_count(text),
{
    let len = text.len() as int;
    if spans.len() > 0 {
        let k = spans.len() - 1;
        lemma_endings_before_span(text, spans, k);
        lemma_span_within_bounds(spans, len, k);
        lemma_no_endings_between(text, spans[k].start, len - 1);
    }
}

} // verus!
