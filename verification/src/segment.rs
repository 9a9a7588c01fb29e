//! The clause segmenter: from the clauses that the backend made of one line
//! to the raw spans of that line.
//!
//! The backend is called with a cursor into the line until it reports the
//! cursor exhausted. Every call yields one [`Clause`]. The segmenter gathers
//! the phoneme text of the clauses and closes a span wherever a clause ends a
//! sentence. The offsets of a span come from counting the bytes that the
//! cursor moved over; they are not yet on word boundaries.

use vstd::prelude::*;
use vstd::string::*;
use crate::span::{Span, spans_of};
use crate::terminator::{ends_sentence, intonation_mark, is_sentence_end, punctuation};

verus! {

/// What one call of the backend returned.
#[derive(Debug, Clone)]
pub struct Clause {
    /// The phonemes of the clause.
    pub phonemes: String,
    /// The terminator code of the clause.
    pub terminator: i32,
    /// Where the cursor stands after the call, as a byte offset into the
    /// line, or `None` once the line is used up.
    pub cursor: Option<usize>,
}

/// The state of the segmenter between two clauses.
pub struct Progress {
    /// The phoneme text gathered since the last span was closed.
    pub pending: Seq<char>,
    /// Where the cursor stood when the last span was closed.
    pub previous_cursor: int,
    /// The start of the last span that was closed; the base offset of the
    /// line while there is none.
    pub start: int,
    /// The end of the last span that was closed; the base offset of the line
    /// while there is none.
    pub end: int,
    /// The spans closed so far.
    pub spans: Seq<Span>,
    /// Whether the backend has reported its cursor exhausted.
    pub exhausted: bool,
}

/// The state before the first clause of a line that starts at `base`.
pub open spec fn start_of_line(base: int) -> Progress {
    Progress {
        pending: Seq::empty(),
        previous_cursor: 0,
        start: base,
        end: base,
        spans: Seq::empty(),
        exhausted: false,
    }
}

/// The end of a span that closes with the cursor at `cursor`, when the span
/// before it ended at `previous_end` with the cursor at `previous_cursor`.
/// With the cursor exhausted the span ends one byte before the end of the line.
pub open spec fn raw_end(
    line_len: int,
    base: int,
    previous_end: int,
    previous_cursor: int,
    cursor: Option<usize>,
) -> int {
    match cursor {
        Some(at) => base + (at - previous_cursor) + previous_end - 1,
        None => line_len + base - 1,
    }
}

/// The state after one more clause. Nothing changes once the cursor is
/// exhausted: the backend is not called again.
pub open spec fn after_clause(line_len: int, base: int, before: Progress, clause: Clause) -> Progress {
    if before.exhausted {
        before
    } else {
        let text = before.pending + clause.phonemes@ + intonation_mark(clause.terminator);
        if ends_sentence(clause.terminator) {
            let start = before.end;
            let end = raw_end(line_len, base, before.end, before.previous_cursor, clause.cursor);
            Progress {
                pending: Seq::empty(),
                previous_cursor: match clause.cursor {
                    Some(at) => at as int,
                    None => before.previous_cursor,
                },
                start,
                end,
                spans: before.spans.push(Span { start, end, phonemes: text }),
                exhausted: clause.cursor is None,
            }
        } else {
            Progress { pending: text, exhausted: clause.cursor is None, ..before }
        }
    }
}

/// The state after all of `clauses`, taken in order.
pub open spec fn after_clauses(line_len: int, base: int, clauses: Seq<Clause>) -> Progress
    decreases clauses.len(),
{
    if clauses.len() == 0 {
        start_of_line(base)
    } else {
        after_clause(
            line_len,
            base,
            after_clauses(line_len, base, clauses.drop_last()),
            clauses.last(),
        )
    }
}

/// The raw spans of a line of `line_len` bytes that starts at byte `base` of
/// the text: the spans closed at the sentence ends, and one more for phoneme
/// text that no sentence end followed. That last span repeats the offsets of
/// the span before it.
pub open spec fn raw_spans(line_len: int, base: int, clauses: Seq<Clause>) -> Seq<Span> {
    let last = after_clauses(line_len, base, clauses);
    if last.pending.len() > 0 {
        last.spans.push(Span { start: last.start, end: last.end, phonemes: last.pending })
    } else {
        last.spans
    }
}

/// Whether every offset that the segmenter computes on the way fits in a
/// `usize`.
pub open spec fn offsets_fit(line_len: int, base: int, clauses: Seq<Clause>) -> bool {
    forall|n: int|
        0 <= n <= clauses.len() ==> 0 <= (#[trigger] after_clauses(
            line_len,
            base,
            clauses.take(n),
        )).end <= usize::MAX
}

/// Taking one more clause is one step of the segmenter.
pub proof fn lemma_one_more_clause(line_len: int, base: int, clauses: Seq<Clause>, n: int)
    requires
        0 <= n < clauses.len(),
    ensures
        after_clauses(line_len, base, clauses.take(n + 1)) == after_clause(
            line_len,
            base,
            after_clauses(line_len, base, clauses.take(n)),
            clauses[n],
        ),
{
    assert(clauses.take(n + 1).drop_last() =~= clauses.take(n));
}

/// Every span starts where the span before it ended, and the first one where
/// the line starts. The state carries the offsets of the last span.
pub proof fn lemma_progress_linked(line_len: int, base: int, clauses: Seq<Clause>)
    ensures
        ({
            let now = after_clauses(line_len, base, clauses);
            &&& now.spans.len() == 0 ==> now.start == base && now.end == base
            &&& now.spans.len() > 0 ==> {
                &&& now.spans[0].start == base
                &&& now.spans.last().start == now.start
                &&& now.spans.last().end == now.end
            }
            &&& forall|k: int|
                0 < k < now.spans.len() ==> (#[trigger] now.spans[k]).start == now.spans[k - 1].end
        }),
    decreases clauses.len(),
{
    if clauses.len() > 0 {
        lemma_progress_linked(line_len, base, clauses.drop_last());
    }
}

/// The raw spans of a line form a chain: the first starts at the base offset
/// of the line, and every other one starts where the one before it ended.
/// The one exception is a last span for phoneme text that no sentence end
/// followed: it has the offsets of the span before it.
pub proof fn lemma_raw_spans_linked(line_len: int, base: int, clauses: Seq<Clause>)
    ensures
        raw_spans(line_len, base, clauses).len() > 0 ==> raw_spans(
            line_len,
            base,
            clauses,
        )[0].start == base,
        forall|k: int|
            0 < k < raw_spans(line_len, base, clauses).len() ==> {
                let here = #[trigger] raw_spans(line_len, base, clauses)[k];
                let before = raw_spans(line_len, base, clauses)[k - 1];
                here.start == before.end || (here.start == before.start && here.end == before.end)
            },
{
    lemma_progress_linked(line_len, base, clauses);
}

/// Where the offsets fit, every offset of a raw span is one that a `usize`
/// can hold.
pub proof fn lemma_raw_spans_fit(line_len: int, base: int, clauses: Seq<Clause>)
    requires
        0 <= base <= usize::MAX,
        offsets_fit(line_len, base, clauses),
    ensures
        forall|k: int|
            0 <= k < raw_spans(line_len, base, clauses).len() ==> {
                &&& 0 <= (#[trigger] raw_spans(line_len, base, clauses)[k]).start <= usize::MAX
                &&& 0 <= raw_spans(line_len, base, clauses)[k].end <= usize::MAX
            },
{
    lemma_progress_fits(line_len, base, clauses, clauses.len() as int);
    assert(clauses.take(clauses.len() as int) =~= clauses);
}

proof fn lemma_progress_fits(line_len: int, base: int, clauses: Seq<Clause>, n: int)
    requires
        0 <= base <= usize::MAX,
        0 <= n <= clauses.len(),
        offsets_fit(line_len, base, clauses),
    ensures
        ({
            let now = after_clauses(line_len, base, clauses.take(n));
            &&& 0 <= now.start <= usize::MAX
            &&& 0 <= now.end <= usize::MAX
            &&& forall|k: int|
                0 <= k < now.spans.len() ==> {
                    &&& 0 <= (#[trigger] now.spans[k]).start <= usize::MAX
                    &&& 0 <= now.spans[k].end <= usize::MAX
                }
        }),
    decreases n,
{
    if n == 0 {
        assert(clauses.take(0) =~= Seq::<Clause>::empty());
    } else {
        lemma_progress_fits(line_len, base, clauses, n - 1);
        lemma_one_more_clause(line_len, base, clauses, n - 1);
        assert(0 <= after_clauses(line_len, base, clauses.take(n)).end <= usize::MAX);
    }
}

/// Whether the cursor never stands behind the place at which the last span
/// was closed when the next span is closed: the backend reads forward.
pub open spec fn cursor_advances(line_len: int, base: int, clauses: Seq<Clause>) -> bool {
    forall|n: int|
        0 <= n < clauses.len() ==> {
            let before = #[trigger] after_clauses(line_len, base, clauses.take(n));
            !before.exhausted && ends_sentence(clauses[n].terminator) ==> (
            clauses[n].cursor matches Some(at) ==> before.previous_cursor <= at)
        }
}

/// With a backend that reads forward, the offsets of a line never fall
/// behind the line: while the cursor is not exhausted the last end is no
/// smaller than the base offset, and no end is smaller by more than one.
proof fn lemma_progress_behind_base(line_len: int, base: int, clauses: Seq<Clause>, n: int)
    requires
        0 <= line_len,
        0 <= base,
        0 <= n <= clauses.len(),
        offsets_fit(line_len, base, clauses),
        cursor_advances(line_len, base, clauses),
    ensures
        ({
            let now = after_clauses(line_len, base, clauses.take(n));
            &&& base <= now.start
            &&& base - 1 <= now.end
            &&& !now.exhausted || line_len >= 1 ==> base <= now.end
            &&& forall|k: int|
                0 <= k < now.spans.len() ==> {
                    &&& base <= (#[trigger] now.spans[k]).start
                    &&& base - 1 <= now.spans[k].end
                    &&& line_len >= 1 ==> base <= now.spans[k].end
                }
        }),
    decreases n,
{
    if n == 0 {
        assert(clauses.take(0) =~= Seq::<Clause>::empty());
    } else {
        lemma_progress_behind_base(line_len, base, clauses, n - 1);
        lemma_one_more_clause(line_len, base, clauses, n - 1);
        let before = after_clauses(line_len, base, clauses.take(n - 1));
        let now = after_clauses(line_len, base, clauses.take(n));
        assert(0 <= now.end);
    }
}

/// With a backend that reads forward, no span of a line starts before the
/// line, and none ends before it, but that a span of an empty line may end
/// one byte before it.
pub proof fn lemma_raw_spans_behind_base(line_len: int, base: int, clauses: Seq<Clause>)
    requires
        0 <= line_len,
        0 <= base,
        offsets_fit(line_len, base, clauses),
        cursor_advances(line_len, base, clauses),
    ensures
        forall|k: int|
            0 <= k < raw_spans(line_len, base, clauses).len() ==> {
                &&& base <= (#[trigger] raw_spans(line_len, base, clauses)[k]).start
                &&& base - 1 <= raw_spans(line_len, base, clauses)[k].end
                &&& line_len >= 1 ==> base <= raw_spans(line_len, base, clauses)[k].end
            },
{
    lemma_progress_behind_base(line_len, base, clauses, clauses.len() as int);
    assert(clauses.take(clauses.len() as int) =~= clauses);
}

/// Whether the backend reads on within the line: wherever a span is closed
/// with the cursor not exhausted, the cursor stands behind the place at which
/// the last span was closed, and within the line.
pub open spec fn reads_on(line_len: int, base: int, clauses: Seq<Clause>) -> bool {
    forall|n: int|
        0 <= n < clauses.len() ==> {
            let before = #[trigger] after_clauses(line_len, base, clauses.take(n));
            !before.exhausted && ends_sentence(clauses[n].terminator) ==> (
            clauses[n].cursor matches Some(at) ==> before.previous_cursor < at <= line_len)
        }
}

proof fn lemma_progress_runs_forward(line_len: int, clauses: Seq<Clause>, n: int)
    requires
        1 <= line_len,
        0 <= n <= clauses.len(),
        reads_on(line_len, 0, clauses),
    ensures
        ({
            let now = after_clauses(line_len, 0, clauses.take(n));
            &&& 0 <= now.previous_cursor <= line_len
            &&& now.start <= now.end
            &&& now.spans.len() == 0 ==> now.end == 0
            &&& now.spans.len() > 0 && !now.exhausted ==> now.end <= now.previous_cursor - 1
            &&& forall|k: int|
                0 <= k < now.spans.len() ==> (#[trigger] now.spans[k]).start <= now.spans[k].end
        }),
    decreases n,
{
    if n == 0 {
        assert(clauses.take(0) =~= Seq::<Clause>::empty());
    } else {
        lemma_progress_runs_forward(line_len, clauses, n - 1);
        lemma_one_more_clause(line_len, 0, clauses, n - 1);
    }
}

/// On a line at the start of the text that is not empty, the raw spans run
/// forward if the backend reads on: none ends before it starts.
pub proof fn lemma_raw_spans_run_forward(line_len: int, clauses: Seq<Clause>)
    requires
        1 <= line_len,
        reads_on(line_len, 0, clauses),
    ensures
        forall|k: int|
            0 <= k < raw_spans(line_len, 0, clauses).len() ==> (#[trigger] raw_spans(
                line_len,
                0,
                clauses,
            )[k]).start <= raw_spans(line_len, 0, clauses)[k].end,
{
    lemma_progress_runs_forward(line_len, clauses, clauses.len() as int);
    assert(clauses.take(clauses.len() as int) =~= clauses);
}

/// Computes the end of a span in a type that is wide enough for every input.
fn wide_raw_end(
    line_len: usize,
    base: usize,
    previous_end: usize,
    previous_cursor: usize,
    cursor: Option<usize>,
) -> (end: i128)
    ensures
        end == raw_end(
            line_len as int,
            base as int,
            previous_end as int,
            previous_cursor as int,
            cursor,
        ),
{
    match cursor {
        Some(at) => base as i128 + (at as i128 - previous_cursor as i128) + previous_end as i128
            - 1,
        None => line_len as i128 + base as i128 - 1,
    }
}

/// Tells whether [`segment_line`] can be called on these arguments.
pub fn check_offsets(line_len: usize, base: usize, clauses: &Vec<Clause>) -> (fit: bool)
    ensures
        fit == offsets_fit(line_len as int, base as int, clauses@),
{
    let ghost len = line_len as int;
    let ghost at = base as int;
    let mut previous_cursor: usize = 0;
    let mut end: usize = base;
    let mut exhausted = false;
    let mut i: usize = 0;
    assert(clauses@.take(0) =~= Seq::<Clause>::empty());
    while i < clauses.len()
        invariant
            0 <= i <= clauses.len(),
            len == line_len as int,
            at == base as int,
            forall|n: int|
                0 <= n <= i ==> 0 <= (#[trigger] after_clauses(len, at, clauses@.take(n))).end
                    <= usize::MAX,
            after_clauses(len, at, clauses@.take(i as int)).end == end,
            after_clauses(len, at, clauses@.take(i as int)).previous_cursor == previous_cursor,
            after_clauses(len, at, clauses@.take(i as int)).exhausted == exhausted,
        decreases clauses.len() - i,
    {
        proof {
            lemma_one_more_clause(len, at, clauses@, i as int);
        }
        let clause = &clauses[i];
        if !exhausted {
            if is_sentence_end(clause.terminator) {
                let wide = wide_raw_end(line_len, base, end, previous_cursor, clause.cursor);
                if wide < 0 || wide > usize::MAX as i128 {
                    return false;
                }
                end = wide as usize;
                if let Some(cursor) = clause.cursor {
                    previous_cursor = cursor;
                }
            }
            exhausted = clause.cursor.is_none();
        }
        i += 1;
    }
    assert(clauses@.take(clauses.len() as int) =~= clauses@);
    true
}

/// Folds the clauses of one line into its raw spans.
///
/// `line_len` is the length of the line in bytes and `base` the byte offset
/// of the line in the text. The clauses are taken in the order in which the
/// backend made them, up to the one that reports the cursor exhausted.
pub fn segment_line(line_len: usize, base: usize, clauses: &Vec<Clause>) -> (spans: Vec<
    (usize, usize, String),
>)
    requires
        offsets_fit(line_len as int, base as int, clauses@),
    ensures
        spans_of(spans@) == raw_spans(line_len as int, base as int, clauses@),
{
    let ghost len = line_len as int;
    let ghost at = base as int;
    let mut spans: Vec<(usize, usize, String)> = Vec::new();
    let mut pending = String::new();
    let mut previous_cursor: usize = 0;
    let mut start: usize = base;
    let mut end: usize = base;
    let mut exhausted = false;
    let mut i: usize = 0;
    assert(clauses@.take(0) =~= Seq::<Clause>::empty());
    assert(spans_of(spans@) =~= Seq::<Span>::empty());
    while i < clauses.len()
        invariant
            0 <= i <= clauses.len(),
            len == line_len as int,
            at == base as int,
            offsets_fit(len, at, clauses@),
            after_clauses(len, at, clauses@.take(i as int)) == (Progress {
                pending: pending@,
                previous_cursor: previous_cursor as int,
                start: start as int,
                end: end as int,
                spans: spans_of(spans@),
                exhausted,
            }),
        decreases clauses.len() - i,
    {
        proof {
            lemma_one_more_clause(len, at, clauses@, i as int);
            assert(0 <= after_clauses(len, at, clauses@.take(i + 1)).end <= usize::MAX);
        }
        let clause = &clauses[i];
        if !exhausted {
            pending.append(clause.phonemes.as_str());
            pending.append(punctuation(clause.terminator));
            if is_sentence_end(clause.terminator) {
                let wide = wide_raw_end(line_len, base, end, previous_cursor, clause.cursor);
                start = end;
                end = wide as usize;
                if let Some(cursor) = clause.cursor {
                    previous_cursor = cursor;
                }
                let ghost before = spans_of(spans@);
                spans.push((start, end, pending));
                pending = String::new();
                assert(spans_of(spans@) =~= before.push(
                    Span {
                        start: start as int,
                        end: end as int,
                        phonemes: after_clauses(len, at, clauses@.take(i + 1)).spans.last().phonemes,
                    },
                ));
            }
            exhausted = clause.cursor.is_none();
        }
        i += 1;
    }
    assert(clauses@.take(clauses.len() as int) =~= clauses@);
    if !pending.as_str().is_empty() {
        let ghost before = spans_of(spans@);
        spans.push((start, end, pending));
        assert(spans_of(spans@) =~= before.push(
            Span { start: start as int, end: end as int, phonemes: spans@.last().2@ },
        ));
    }
    spans
}

} // verus!
