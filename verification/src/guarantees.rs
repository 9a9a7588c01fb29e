//! What holds of the spans of a text, whatever the backend answered.
//!
//! The statements speak of the spans of a line, [`spans_in_line`], and of the
//! spans of the text, [`phoneme_spans`], which are those of its lines one
//! after the other. Some of them ask that the raw offsets behave: the
//! segmenter adds the base offset of a line to every end it computes, so on a
//! line far into the text an end may overtake what follows it.

use vstd::prelude::*;
use vstd::utf8::encode_utf8;
use crate::boundary::boundary_table;
use crate::filter::lemma_filters_keep_offsets;
use crate::lines::{lemma_line_ranges, lemma_next_line_feed, line_ranges, line_ranges_from, LINE_FEED};
use crate::phonemize::{
    clauses_of, phoneme_spans, raw_in_line, spans_in_line, spans_of_lines, table_of_line,
    transcript_fits,
};
use crate::segment::{
    cursor_advances, lemma_raw_spans_behind_base, lemma_raw_spans_fit, lemma_raw_spans_linked,
    lemma_raw_spans_run_forward, offsets_fit, reads_on, Clause,
};
use crate::snap::{
    is_boundary, is_chain, lemma_snapped_in_order, lemma_snapped_on_boundaries, snap_span, snapped,
};
use crate::span::Span;

verus! {

/// Spans in order: no start is smaller than one before it, and no span ends
/// before it starts.
pub open spec fn is_ordered(spans: Seq<Span>) -> bool {
    &&& forall|i: int| 0 <= i < spans.len() ==> (#[trigger] spans[i]).start <= spans[i].end
    &&& forall|i: int, j: int|
        0 <= i <= j < spans.len() ==> (#[trigger] spans[i]).start <= (#[trigger] spans[j]).start
}

/// Whether the raw spans of every line run forward and end no later than the
/// next line starts.
pub open spec fn runs_forward(bytes: Seq<u8>, lines: Seq<Vec<Clause>>) -> bool {
    forall|i: int, k: int|
        0 <= i < line_ranges(bytes).len() && 0 <= k < raw_in_line(bytes, lines, i).len() ==> {
            &&& (#[trigger] raw_in_line(bytes, lines, i)[k]).start <= raw_in_line(
                bytes,
                lines,
                i,
            )[k].end
            &&& i + 1 < line_ranges(bytes).len() ==> raw_in_line(bytes, lines, i)[k].end
                <= line_ranges(bytes)[i + 1].0
        }
}

/// Whether the backend read every line forward.
pub open spec fn reads_forward(bytes: Seq<u8>, lines: Seq<Vec<Clause>>) -> bool {
    forall|i: int|
        0 <= i < line_ranges(bytes).len() ==> cursor_advances(
            (#[trigger] line_ranges(bytes)[i]).1 - line_ranges(bytes)[i].0,
            line_ranges(bytes)[i].0,
            clauses_of(lines, i),
        )
}

/// A span of a line is the raw span at its place, snapped and filtered.
pub proof fn lemma_span_of_line(
    bytes: Seq<u8>,
    lines: Seq<Vec<Clause>>,
    remove_lang_switch_flags: bool,
    remove_stress: bool,
    i: int,
    k: int,
)
    requires
        0 <= k < spans_in_line(bytes, lines, remove_lang_switch_flags, remove_stress, i).len(),
    ensures
        k < raw_in_line(bytes, lines, i).len(),
        spans_in_line(bytes, lines, remove_lang_switch_flags, remove_stress, i)[k].start
            == snap_span(table_of_line(bytes, i), raw_in_line(bytes, lines, i)[k]).start,
        spans_in_line(bytes, lines, remove_lang_switch_flags, remove_stress, i)[k].end
            == snap_span(table_of_line(bytes, i), raw_in_line(bytes, lines, i)[k]).end,
{
    lemma_filters_keep_offsets(
        snapped(table_of_line(bytes, i), raw_in_line(bytes, lines, i)),
        remove_lang_switch_flags,
        remove_stress,
    );
}

/// The spans of the first `n` lines are in order and start no later than the
/// line behind them.
proof fn lemma_first_lines_ordered(
    bytes: Seq<u8>,
    lines: Seq<Vec<Clause>>,
    remove_lang_switch_flags: bool,
    remove_stress: bool,
    n: int,
)
    requires
        0 <= n <= line_ranges(bytes).len(),
        runs_forward(bytes, lines),
    ensures
        is_ordered(spans_of_lines(bytes, lines, remove_lang_switch_flags, remove_stress, n)),
        n < line_ranges(bytes).len() ==> forall|p: int|
            0 <= p < spans_of_lines(
                bytes,
                lines,
                remove_lang_switch_flags,
                remove_stress,
                n,
            ).len() ==> (#[trigger] spans_of_lines(
                bytes,
                lines,
                remove_lang_switch_flags,
                remove_stress,
                n,
            )[p]).start <= line_ranges(bytes)[n].0,
    decreases n,
{
    if n > 0 {
        let i = n - 1;
        lemma_first_lines_ordered(bytes, lines, remove_lang_switch_flags, remove_stress, i);
        lemma_line_ranges(bytes);
        let ranges = line_ranges(bytes);
        let before = spans_of_lines(bytes, lines, remove_lang_switch_flags, remove_stress, i);
        let here = spans_in_line(bytes, lines, remove_lang_switch_flags, remove_stress, i);
        let all = spans_of_lines(bytes, lines, remove_lang_switch_flags, remove_stress, n);
        let raw = raw_in_line(bytes, lines, i);
        let table = table_of_line(bytes, i);
        lemma_raw_spans_linked(ranges[i].1 - ranges[i].0, ranges[i].0, clauses_of(lines, i));
        assert(is_chain(raw)) by {
            assert forall|k: int| 0 <= k < raw.len() implies (#[trigger] raw[k]).start
                <= raw[k].end by {
                assert(raw_in_line(bytes, lines, i)[k].start <= raw_in_line(bytes, lines, i)[k].end);
            }
        }
        assert(here.len() == raw.len());
        assert forall|k: int| 0 <= k < here.len() implies ranges[i].0 <= (#[trigger] here[k]).start
            <= here[k].end && here[k].start <= raw[k].end by {
            lemma_span_of_line(bytes, lines, remove_lang_switch_flags, remove_stress, i, k);
            lemma_snapped_in_order(table, raw, 0, k);
            lemma_snapped_on_boundaries(table, raw[k]);
        }
        assert forall|j: int, k: int| 0 <= j <= k < here.len() implies (#[trigger] here[j]).start
            <= (#[trigger] here[k]).start by {
            lemma_span_of_line(bytes, lines, remove_lang_switch_flags, remove_stress, i, j);
            lemma_span_of_line(bytes, lines, remove_lang_switch_flags, remove_stress, i, k);
            lemma_snapped_in_order(table, raw, j, k);
        }
        assert(all =~= before + here);
        assert forall|p: int, q: int| 0 <= p <= q < all.len() implies (#[trigger] all[p]).start <= (
        #[trigger] all[q]).start by {
            if q < before.len() {
                assert(all[p] == before[p] && all[q] == before[q]);
            } else if p < before.len() {
                assert(all[p] == before[p] && all[q] == here[q - before.len()]);
            } else {
                assert(all[p] == here[p - before.len()] && all[q] == here[q - before.len()]);
            }
        }
        assert forall|p: int| 0 <= p < all.len() implies (#[trigger] all[p]).start
            <= all[p].end by {
            if p < before.len() {
                assert(all[p] == before[p]);
            } else {
                assert(all[p] == here[p - before.len()]);
            }
        }
        if n < ranges.len() {
            assert forall|p: int| 0 <= p < all.len() implies (#[trigger] all[p]).start
                <= ranges[n].0 by {
                if p < before.len() {
                    assert(all[p] == before[p]);
                } else {
                    let k = p - before.len();
                    assert(all[p] == here[k]);
                    assert(raw_in_line(bytes, lines, i)[k].end <= ranges[i + 1].0);
                }
            }
        }
    }
}

/// The spans of a text come in order: no start is smaller than one before
/// it, and no span ends before it starts. This holds where the raw spans of
/// every line run forward and end no later than the next line starts.
pub proof fn lemma_spans_ordered(
    text: Seq<char>,
    lines: Seq<Vec<Clause>>,
    remove_lang_switch_flags: bool,
    remove_stress: bool,
)
    requires
        runs_forward(encode_utf8(text), lines),
    ensures
        is_ordered(phoneme_spans(text, lines, remove_lang_switch_flags, remove_stress)),
{
    let bytes = encode_utf8(text);
    lemma_first_lines_ordered(
        bytes,
        lines,
        remove_lang_switch_flags,
        remove_stress,
        line_ranges(bytes).len() as int,
    );
}

/// The spans of a text of one line come in order if the backend read on
/// within the line.
pub proof fn lemma_one_line_ordered(
    text: Seq<char>,
    lines: Seq<Vec<Clause>>,
    remove_lang_switch_flags: bool,
    remove_stress: bool,
)
    requires
        text.len() > 0,
        forall|at: int|
            0 <= at < encode_utf8(text).len() ==> encode_utf8(text)[at] != LINE_FEED,
        reads_on(encode_utf8(text).len() as int, 0, clauses_of(lines, 0)),
    ensures
        is_ordered(phoneme_spans(text, lines, remove_lang_switch_flags, remove_stress)),
{
    let bytes = encode_utf8(text);
    lemma_one_line(text);
    lemma_raw_spans_run_forward(bytes.len() as int, clauses_of(lines, 0));
    assert(runs_forward(bytes, lines));
    lemma_spans_ordered(text, lines, remove_lang_switch_flags, remove_stress);
}

/// Every span of the text is a span of one of its lines: the result names
/// the line and the place of the span among the spans of that line.
pub proof fn lemma_span_has_line(
    text: Seq<char>,
    lines: Seq<Vec<Clause>>,
    remove_lang_switch_flags: bool,
    remove_stress: bool,
    p: int,
) -> (place: (int, int))
    requires
        0 <= p < phoneme_spans(text, lines, remove_lang_switch_flags, remove_stress).len(),
    ensures
        0 <= place.0 < line_ranges(encode_utf8(text)).len(),
        0 <= place.1 < spans_in_line(
            encode_utf8(text),
            lines,
            remove_lang_switch_flags,
            remove_stress,
            place.0,
        ).len(),
        phoneme_spans(text, lines, remove_lang_switch_flags, remove_stress)[p] == spans_in_line(
            encode_utf8(text),
            lines,
            remove_lang_switch_flags,
            remove_stress,
            place.0,
        )[place.1],
{
    let bytes = encode_utf8(text);
    lemma_span_among_lines(
        bytes,
        lines,
        remove_lang_switch_flags,
        remove_stress,
        line_ranges(bytes).len() as int,
        p,
    )
}

proof fn lemma_span_among_lines(
    bytes: Seq<u8>,
    lines: Seq<Vec<Clause>>,
    remove_lang_switch_flags: bool,
    remove_stress: bool,
    n: int,
    p: int,
) -> (place: (int, int))
    requires
        0 <= p < spans_of_lines(bytes, lines, remove_lang_switch_flags, remove_stress, n).len(),
    ensures
        0 <= place.0 < n,
        0 <= place.1 < spans_in_line(
            bytes,
            lines,
            remove_lang_switch_flags,
            remove_stress,
            place.0,
        ).len(),
        spans_of_lines(bytes, lines, remove_lang_switch_flags, remove_stress, n)[p]
            == spans_in_line(
            bytes,
            lines,
            remove_lang_switch_flags,
            remove_stress,
            place.0,
        )[place.1],
    decreases n,
{
    let before = spans_of_lines(bytes, lines, remove_lang_switch_flags, remove_stress, n - 1);
    if p < before.len() {
        lemma_span_among_lines(bytes, lines, remove_lang_switch_flags, remove_stress, n - 1, p)
    } else {
        (n - 1, p - before.len())
    }
}

/// The offsets of a span stand on word boundaries of its line, counted as
/// the index of the line is read: the end stands where the index marks a
/// word boundary or has no entry, and so does the start, unless it met the
/// raw end of its span first. Neither offset was moved back.
pub proof fn lemma_spans_on_boundaries(
    text: Seq<char>,
    lines: Seq<Vec<Clause>>,
    remove_lang_switch_flags: bool,
    remove_stress: bool,
    i: int,
    k: int,
)
    requires
        0 <= k < spans_in_line(
            encode_utf8(text),
            lines,
            remove_lang_switch_flags,
            remove_stress,
            i,
        ).len(),
    ensures
        ({
            let bytes = encode_utf8(text);
            let span = spans_in_line(bytes, lines, remove_lang_switch_flags, remove_stress, i)[k];
            let raw = raw_in_line(bytes, lines, i)[k];
            let table = table_of_line(bytes, i);
            &&& raw.start <= span.start
            &&& raw.end <= span.end
            &&& is_boundary(table, span.end)
            &&& is_boundary(table, span.start) || span.start >= raw.end
        }),
{
    let bytes = encode_utf8(text);
    lemma_span_of_line(bytes, lines, remove_lang_switch_flags, remove_stress, i, k);
    lemma_snapped_on_boundaries(table_of_line(bytes, i), raw_in_line(bytes, lines, i)[k]);
}

/// A text without a line feed is one line, which is the text.
pub proof fn lemma_one_line(text: Seq<char>)
    requires
        text.len() > 0,
        forall|at: int|
            0 <= at < encode_utf8(text).len() ==> encode_utf8(text)[at] != LINE_FEED,
    ensures
        line_ranges(encode_utf8(text)) == seq![(0int, encode_utf8(text).len() as int)],
        table_of_line(encode_utf8(text), 0) == boundary_table(text),
{
    let bytes = encode_utf8(text);
    vstd::utf8::encode_utf8_first_scalar(text);
    assert(bytes.len() > 0);
    lemma_next_line_feed(bytes, 0);
    let len = bytes.len() as int;
    assert(line_ranges_from(bytes, len) =~= Seq::<(int, int)>::empty());
    assert(line_ranges(bytes) =~= seq![(0int, len)]);
    assert(bytes.subrange(0, len) =~= bytes);
    vstd::utf8::encode_utf8_decode_utf8(text);
}

/// In a text of one line, the offsets of a span are true entries of the word
/// boundary index of the text: the end where it lies within the text, and
/// the start where it lies before the raw end of its span.
pub proof fn lemma_one_line_on_boundaries(
    text: Seq<char>,
    lines: Seq<Vec<Clause>>,
    remove_lang_switch_flags: bool,
    remove_stress: bool,
    k: int,
)
    requires
        text.len() > 0,
        forall|at: int|
            0 <= at < encode_utf8(text).len() ==> encode_utf8(text)[at] != LINE_FEED,
        transcript_fits(text, lines),
        0 <= k < phoneme_spans(text, lines, remove_lang_switch_flags, remove_stress).len(),
    ensures
        ({
            let span = phoneme_spans(text, lines, remove_lang_switch_flags, remove_stress)[k];
            let raw = raw_in_line(encode_utf8(text), lines, 0)[k];
            let table = boundary_table(text);
            &&& span.end <= encode_utf8(text).len() ==> 0 <= span.end < table.len()
                && table[span.end]
            &&& span.start < raw.end && span.start <= encode_utf8(text).len() ==> 0 <= span.start
                < table.len() && table[span.start]
        }),
{
    let bytes = encode_utf8(text);
    lemma_one_line(text);
    let here = spans_in_line(bytes, lines, remove_lang_switch_flags, remove_stress, 0);
    assert(spans_of_lines(bytes, lines, remove_lang_switch_flags, remove_stress, 0)
        =~= Seq::<Span>::empty());
    assert(spans_of_lines(bytes, lines, remove_lang_switch_flags, remove_stress, 1) =~= here);
    lemma_spans_on_boundaries(text, lines, remove_lang_switch_flags, remove_stress, 0, k);
    let range = line_ranges(bytes)[0];
    assert(transcript_fits(text, lines));
    assert(offsets_fit(range.1 - range.0, range.0, clauses_of(lines, 0)));
    lemma_raw_spans_fit(range.1 - range.0, range.0, clauses_of(lines, 0));
}

/// With a backend that reads forward, no span starts before its line, and
/// none ends before it; only a span of an empty line may end one byte before
/// the line.
pub proof fn lemma_spans_behind_line_start(
    text: Seq<char>,
    lines: Seq<Vec<Clause>>,
    remove_lang_switch_flags: bool,
    remove_stress: bool,
    i: int,
    k: int,
)
    requires
        transcript_fits(text, lines),
        reads_forward(encode_utf8(text), lines),
        0 <= i < line_ranges(encode_utf8(text)).len(),
        0 <= k < spans_in_line(
            encode_utf8(text),
            lines,
            remove_lang_switch_flags,
            remove_stress,
            i,
        ).len(),
    ensures
        ({
            let bytes = encode_utf8(text);
            let span = spans_in_line(bytes, lines, remove_lang_switch_flags, remove_stress, i)[k];
            let range = line_ranges(bytes)[i];
            &&& range.0 <= span.start
            &&& range.0 - 1 <= span.end
            &&& range.0 < range.1 ==> range.0 <= span.end
        }),
{
    let bytes = encode_utf8(text);
    let range = line_ranges(bytes)[i];
    lemma_line_ranges(bytes);
    lemma_spans_on_boundaries(text, lines, remove_lang_switch_flags, remove_stress, i, k);
    assert(offsets_fit(range.1 - range.0, range.0, clauses_of(lines, i)));
    lemma_raw_spans_behind_base(range.1 - range.0, range.0, clauses_of(lines, i));
}

/// The offsets go on from line to line: a span of a later line starts behind
/// every span of an earlier line that ends within its line, and ends behind
/// it too, or at the same place if the later line is empty.
pub proof fn lemma_later_lines_lie_behind(
    text: Seq<char>,
    lines: Seq<Vec<Clause>>,
    remove_lang_switch_flags: bool,
    remove_stress: bool,
    i: int,
    k: int,
    j: int,
    m: int,
)
    requires
        transcript_fits(text, lines),
        reads_forward(encode_utf8(text), lines),
        0 <= i < j < line_ranges(encode_utf8(text)).len(),
        0 <= k < spans_in_line(
            encode_utf8(text),
            lines,
            remove_lang_switch_flags,
            remove_stress,
            i,
        ).len(),
        0 <= m < spans_in_line(
            encode_utf8(text),
            lines,
            remove_lang_switch_flags,
            remove_stress,
            j,
        ).len(),
        spans_in_line(encode_utf8(text), lines, remove_lang_switch_flags, remove_stress, i)[k].end
            <= line_ranges(encode_utf8(text))[i].1,
    ensures
        ({
            let bytes = encode_utf8(text);
            let early = spans_in_line(bytes, lines, remove_lang_switch_flags, remove_stress, i)[k];
            let late = spans_in_line(bytes, lines, remove_lang_switch_flags, remove_stress, j)[m];
            &&& early.end < late.start
            &&& early.end <= late.end
            &&& line_ranges(bytes)[j].0 < line_ranges(bytes)[j].1 ==> early.end < late.end
        }),
{
    lemma_line_ranges(encode_utf8(text));
    lemma_spans_behind_line_start(text, lines, remove_lang_switch_flags, remove_stress, j, m);
}

/// The filters change no offset and no count: with and without them the
/// spans of a text are as many and lie at the same places.
pub proof fn lemma_filters_leave_offsets(
    text: Seq<char>,
    lines: Seq<Vec<Clause>>,
    remove_lang_switch_flags: bool,
    remove_stress: bool,
)
    ensures
        phoneme_spans(text, lines, remove_lang_switch_flags, remove_stress).len() == phoneme_spans(
            text,
            lines,
            false,
            false,
        ).len(),
        forall|p: int|
            0 <= p < phoneme_spans(text, lines, false, false).len() ==> {
                &&& (#[trigger] phoneme_spans(
                    text,
                    lines,
                    remove_lang_switch_flags,
                    remove_stress,
                )[p]).start == phoneme_spans(text, lines, false, false)[p].start
                &&& phoneme_spans(text, lines, remove_lang_switch_flags, remove_stress)[p].end
                    == phoneme_spans(text, lines, false, false)[p].end
            },
{
    let bytes = encode_utf8(text);
    lemma_filters_leave_first_lines(
        bytes,
        lines,
        remove_lang_switch_flags,
        remove_stress,
        line_ranges(bytes).len() as int,
    );
}

proof fn lemma_filters_leave_first_lines(
    bytes: Seq<u8>,
    lines: Seq<Vec<Clause>>,
    remove_lang_switch_flags: bool,
    remove_stress: bool,
    n: int,
)
    ensures
        spans_of_lines(bytes, lines, remove_lang_switch_flags, remove_stress, n).len()
            == spans_of_lines(bytes, lines, false, false, n).len(),
        forall|p: int|
            0 <= p < spans_of_lines(bytes, lines, false, false, n).len() ==> {
                &&& (#[trigger] spans_of_lines(
                    bytes,
                    lines,
                    remove_lang_switch_flags,
                    remove_stress,
                    n,
                )[p]).start == spans_of_lines(bytes, lines, false, false, n)[p].start
                &&& spans_of_lines(bytes, lines, remove_lang_switch_flags, remove_stress, n)[p].end
                    == spans_of_lines(bytes, lines, false, false, n)[p].end
            },
    decreases n,
{
    if n > 0 {
        lemma_filters_leave_first_lines(
            bytes,
            lines,
            remove_lang_switch_flags,
            remove_stress,
            n - 1,
        );
        let snapped_here = snapped(table_of_line(bytes, n - 1), raw_in_line(bytes, lines, n - 1));
        lemma_filters_keep_offsets(snapped_here, remove_lang_switch_flags, remove_stress);
        lemma_filters_keep_offsets(snapped_here, false, false);
    }
}

} // verus!
