//! The boundary snapper: moves the offsets of raw spans onto word boundaries.
//!
//! A raw offset comes from counting bytes and may stand inside a word. The
//! snapper moves it forward to the next position that the word boundary index
//! marks. A position for which the index has no entry counts as marked, so
//! that the search ends.

use vstd::prelude::*;
use vstd::string::*;
use crate::span::{Span, span_of, spans_of};

verus! {

/// Whether an offset may stay at `at`: the index marks the position, or has
/// no entry for it.
pub open spec fn is_boundary(table: Seq<bool>, at: int) -> bool {
    !(0 <= at < table.len()) || table[at]
}

/// The first position from `end` on at which an offset may stay.
pub open spec fn snap_end(table: Seq<bool>, end: int) -> int
    decreases table.len() - end,
{
    if is_boundary(table, end) {
        end
    } else {
        snap_end(table, end + 1)
    }
}

/// The first position from `start` on at which an offset may stay, but `end`
/// at the latest; `start` itself where it lies behind `end`.
pub open spec fn snap_start(table: Seq<bool>, start: int, end: int) -> int
    decreases end - start,
{
    if is_boundary(table, start) || start >= end {
        start
    } else {
        snap_start(table, start + 1, end)
    }
}

/// A span with both offsets snapped. The start is held back by the raw end,
/// not by the snapped one.
pub open spec fn snap_span(table: Seq<bool>, raw: Span) -> Span {
    Span {
        start: snap_start(table, raw.start, raw.end),
        end: snap_end(table, raw.end),
        phonemes: raw.phonemes,
    }
}

/// Every span of `raw` snapped, in the same order.
pub open spec fn snapped(table: Seq<bool>, raw: Seq<Span>) -> Seq<Span> {
    Seq::new(raw.len(), |i: int| snap_span(table, raw[i]))
}

/// What pins `snap_end` down: it is the least position from `end` on at which
/// an offset may stay, and it lies within the index or at `end`.
pub proof fn lemma_snap_end(table: Seq<bool>, end: int)
    ensures
        end <= snap_end(table, end),
        is_boundary(table, snap_end(table, end)),
        forall|at: int| end <= at < snap_end(table, end) ==> !is_boundary(table, at),
        snap_end(table, end) == end || snap_end(table, end) <= table.len(),
    decreases table.len() - end,
{
    if !is_boundary(table, end) {
        lemma_snap_end(table, end + 1);
    }
}

/// What pins `snap_start` down: it is the least position from `start` on that
/// is a place to stay or has reached `end`.
pub proof fn lemma_snap_start(table: Seq<bool>, start: int, end: int)
    ensures
        start <= snap_start(table, start, end),
        is_boundary(table, snap_start(table, start, end)) || snap_start(table, start, end) >= end,
        forall|at: int|
            start <= at < snap_start(table, start, end) ==> !is_boundary(table, at) && at < end,
        start <= end ==> snap_start(table, start, end) <= end,
    decreases end - start,
{
    if !(is_boundary(table, start) || start >= end) {
        lemma_snap_start(table, start + 1, end);
    }
}

/// Whether the spans form a chain of spans that run forward: each ends no
/// earlier than it starts, and each starts where the one before it ended or
/// has the offsets of the one before it.
pub open spec fn is_chain(raw: Seq<Span>) -> bool {
    &&& forall|k: int| 0 <= k < raw.len() ==> (#[trigger] raw[k]).start <= raw[k].end
    &&& forall|k: int|
        0 < k < raw.len() ==> {
            ||| (#[trigger] raw[k]).start == raw[k - 1].end
            ||| (raw[k].start == raw[k - 1].start && raw[k].end == raw[k - 1].end)
        }
}

/// Snapping never moves an offset back, and stops where the index marks a
/// word boundary or has no entry. A start stops at the raw end of its span
/// at the latest.
pub proof fn lemma_snapped_on_boundaries(table: Seq<bool>, raw: Span)
    ensures
        raw.start <= snap_span(table, raw).start,
        raw.end <= snap_span(table, raw).end,
        is_boundary(table, snap_span(table, raw).end),
        is_boundary(table, snap_span(table, raw).start) || snap_span(table, raw).start >= raw.end,
        raw.start <= raw.end ==> snap_span(table, raw).start <= raw.end,
{
    lemma_snap_start(table, raw.start, raw.end);
    lemma_snap_end(table, raw.end);
}

/// Snapping keeps a chain in order: the starts do not decrease from one span
/// to the next, and every span still ends no earlier than it starts.
pub proof fn lemma_snapped_in_order(table: Seq<bool>, raw: Seq<Span>, i: int, j: int)
    requires
        is_chain(raw),
        0 <= i <= j < raw.len(),
    ensures
        snapped(table, raw)[i].start <= snapped(table, raw)[j].start,
        snapped(table, raw)[j].start <= snapped(table, raw)[j].end,
        raw[i].start <= raw[j].start,
    decreases j - i,
{
    lemma_snapped_on_boundaries(table, raw[j]);
    if i < j {
        lemma_snapped_in_order(table, raw, i, j - 1);
        lemma_snapped_on_boundaries(table, raw[j - 1]);
    }
}

/// Moves `start` forward to a word boundary, never past `end`.
fn snap_start_offset(table: &Vec<bool>, start: usize, end: usize) -> (snapped: usize)
    ensures
        snapped == snap_start(table@, start as int, end as int),
{
    let mut at = start;
    while at < table.len() && !table[at] && at < end
        invariant
            start <= at,
            snap_start(table@, at as int, end as int) == snap_start(
                table@,
                start as int,
                end as int,
            ),
        decreases end - at,
    {
        at += 1;
    }
    at
}

/// Moves `end` forward to a word boundary.
fn snap_end_offset(table: &Vec<bool>, end: usize) -> (snapped: usize)
    ensures
        snapped == snap_end(table@, end as int),
{
    let mut at = end;
    while at < table.len() && !table[at]
        invariant
            end <= at,
            snap_end(table@, at as int) == snap_end(table@, end as int),
        decreases table.len() - at,
    {
        at += 1;
    }
    at
}

/// Snaps every span of `raw` to the word boundaries that `table` marks. The
/// phoneme text of the spans stays as it is.
pub fn snap(raw: &Vec<(usize, usize, String)>, table: &Vec<bool>) -> (spans: Vec<
    (usize, usize, String),
>)
    ensures
        spans@.len() == raw@.len(),
        spans_of(spans@) == snapped(table@, spans_of(raw@)),
{
    let mut spans: Vec<(usize, usize, String)> = Vec::new();
    let mut i: usize = 0;
    while i < raw.len()
        invariant
            0 <= i <= raw.len(),
            spans.len() == i,
            forall|k: int| 0 <= k < i ==> span_of(spans[k]) == snap_span(table@, span_of(raw[k])),
        decreases raw.len() - i,
    {
        let start = snap_start_offset(table, raw[i].0, raw[i].1);
        let end = snap_end_offset(table, raw[i].1);
        spans.push((start, end, raw[i].2.clone()));
        i += 1;
    }
    assert(spans_of(spans@) =~= snapped(table@, spans_of(raw@)));
    spans
}

} // verus!
