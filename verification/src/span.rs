//! Spans: a stretch of the text and the phonemes that were made from it.

use vstd::prelude::*;

verus! {

/// The mathematical value of a span. `start` and `end` are byte offsets into
/// the whole text, `end` exclusive; `phonemes` is the phonetic text, with the
/// punctuation that marks the intonation of its clauses.
pub struct Span {
    pub start: int,
    pub end: int,
    pub phonemes: Seq<char>,
}

/// The value of a span as the functions of this crate hand it out.
pub open spec fn span_of(span: (usize, usize, String)) -> Span {
    Span { start: span.0 as int, end: span.1 as int, phonemes: span.2@ }
}

/// The values of a sequence of spans, in order.
pub open spec fn spans_of(spans: Seq<(usize, usize, String)>) -> Seq<Span> {
    Seq::new(spans.len(), |i: int| span_of(spans[i]))
}

} // verus!
