//! From a text and the answers of the backend to the spans of the text.
//!
//! The caller initializes the backend, selects the voice and then runs the
//! backend over every line of [`split_lines`] until its cursor is exhausted.
//! What came back is the [`Transcript`]. [`text_to_phonemes`] turns the text
//! and the transcript into spans, line by line.

use vstd::prelude::*;
use vstd::string::*;
use vstd::utf8::encode_utf8;
use crate::boundary::{boundary_table, word_boundaries};
use crate::error::ESpeakResult;
use crate::filter::{apply_filters, filtered};
use crate::lines::{line_ranges, line_text, lines_match, split_lines};
use crate::segment::{check_offsets, offsets_fit, raw_spans, segment_line, Clause};
use crate::session::{
    check_initialized, check_voice, init_failure, initialized, voice_failure, voice_selected,
};
use crate::snap::{snap, snapped};
use crate::span::{Span, spans_of};

verus! {

/// The answers of the backend during one run over a text.
#[derive(Debug, Clone)]
pub struct Transcript {
    /// The sample rate that the initialization returned.
    pub sample_rate: i32,
    /// The status that the selection of the voice returned.
    pub voice_status: i32,
    /// For every line of the text, in order, the clauses that the backend
    /// made of it.
    pub lines: Vec<Vec<Clause>>,
}

/// The clauses of line `i`. A line that the transcript does not reach has none.
pub open spec fn clauses_of(lines: Seq<Vec<Clause>>, i: int) -> Seq<Clause> {
    if 0 <= i < lines.len() {
        lines[i]@
    } else {
        Seq::empty()
    }
}

/// The spans of one line that starts at byte `base` of the text: its raw
/// spans, snapped to the word boundaries of the line, then filtered.
pub open spec fn line_spans(
    line: Seq<char>,
    base: int,
    clauses: Seq<Clause>,
    remove_lang_switch_flags: bool,
    remove_stress: bool,
) -> Seq<Span> {
    filtered(
        snapped(boundary_table(line), raw_spans(encode_utf8(line).len() as int, base, clauses)),
        remove_lang_switch_flags,
        remove_stress,
    )
}

/// The raw spans of line `i` of `bytes`.
pub open spec fn raw_in_line(bytes: Seq<u8>, lines: Seq<Vec<Clause>>, i: int) -> Seq<Span> {
    let range = line_ranges(bytes)[i];
    raw_spans(range.1 - range.0, range.0, clauses_of(lines, i))
}

/// The word boundary index of line `i` of `bytes`. Its entries are counted
/// from the start of the line.
pub open spec fn table_of_line(bytes: Seq<u8>, i: int) -> Seq<bool> {
    boundary_table(line_text(bytes, line_ranges(bytes)[i]))
}

/// The spans of line `i` of `bytes`.
pub open spec fn spans_in_line(
    bytes: Seq<u8>,
    lines: Seq<Vec<Clause>>,
    remove_lang_switch_flags: bool,
    remove_stress: bool,
    i: int,
) -> Seq<Span> {
    filtered(
        snapped(table_of_line(bytes, i), raw_in_line(bytes, lines, i)),
        remove_lang_switch_flags,
        remove_stress,
    )
}

/// The spans of the first `n` lines of `bytes`, in the order of the lines.
pub open spec fn spans_of_lines(
    bytes: Seq<u8>,
    lines: Seq<Vec<Clause>>,
    remove_lang_switch_flags: bool,
    remove_stress: bool,
    n: int,
) -> Seq<Span>
    decreases n,
{
    if n <= 0 {
        Seq::empty()
    } else {
        spans_of_lines(bytes, lines, remove_lang_switch_flags, remove_stress, n - 1)
            + spans_in_line(bytes, lines, remove_lang_switch_flags, remove_stress, n - 1)
    }
}

/// The spans of a text.
pub open spec fn phoneme_spans(
    text: Seq<char>,
    lines: Seq<Vec<Clause>>,
    remove_lang_switch_flags: bool,
    remove_stress: bool,
) -> Seq<Span> {
    spans_of_lines(
        encode_utf8(text),
        lines,
        remove_lang_switch_flags,
        remove_stress,
        line_ranges(encode_utf8(text)).len() as int,
    )
}

/// Whether the offsets of every line of the text fit in a `usize`.
pub open spec fn transcript_fits(text: Seq<char>, lines: Seq<Vec<Clause>>) -> bool {
    forall|i: int|
        0 <= i < line_ranges(encode_utf8(text)).len() ==> offsets_fit(
            (#[trigger] line_ranges(encode_utf8(text))[i]).1 - line_ranges(encode_utf8(text))[i].0,
            line_ranges(encode_utf8(text))[i].0,
            clauses_of(lines, i),
        )
}

/// Turns one line and its clauses into the spans of the line.
pub fn _text_to_phonemes(
    text: &str,
    text_offset: usize,
    clauses: &Vec<Clause>,
    remove_lang_switch_flags: bool,
    remove_stress: bool,
) -> (spans: Vec<(usize, usize, String)>)
    requires
        offsets_fit(encode_utf8(text@).len() as int, text_offset as int, clauses@),
    ensures
        spans_of(spans@) == line_spans(
            text@,
            text_offset as int,
            clauses@,
            remove_lang_switch_flags,
            remove_stress,
        ),
{
    let bytes = text.as_bytes();
    let raw = segment_line(bytes.len(), text_offset, clauses);
    let table = word_boundaries(text);
    let snapped = snap(&raw, &table);
    apply_filters(snapped, remove_lang_switch_flags, remove_stress)
}

/// Tells whether the offsets of every line of the text fit in a `usize`, as
/// [`text_to_phonemes`] asks.
pub fn check_transcript(text: &str, lines: &Vec<Vec<Clause>>) -> (fit: bool)
    ensures
        fit == transcript_fits(text@, lines@),
{
    let parts = split_lines(text);
    let none: Vec<Clause> = Vec::new();
    let ghost ranges = line_ranges(encode_utf8(text@));
    let mut i: usize = 0;
    while i < parts.len()
        invariant
            0 <= i <= parts.len(),
            none@.len() == 0,
            ranges == line_ranges(encode_utf8(text@)),
            lines_match(encode_utf8(text@), ranges, parts@),
            forall|k: int|
                0 <= k < i ==> offsets_fit(
                    (#[trigger] ranges[k]).1 - ranges[k].0,
                    ranges[k].0,
                    clauses_of(lines@, k),
                ),
        decreases parts.len() - i,
    {
        let (base, line) = parts[i];
        let clauses = if i < lines.len() {
            &lines[i]
        } else {
            &none
        };
        assert(clauses@ =~= clauses_of(lines@, i as int));
        let bytes = line.as_bytes();
        if !check_offsets(bytes.len(), base, clauses) {
            assert(!offsets_fit(
                ranges[i as int].1 - ranges[i as int].0,
                ranges[i as int].0,
                clauses_of(lines@, i as int),
            ));
            return false;
        }
        i += 1;
    }
    true
}

/// Turns a text and the answers of the backend into the spans of the text.
///
/// Fails where the backend could not be initialized or refused the voice for
/// `language`; no span is returned then. Else the spans of all lines are
/// returned, in the order of the lines, with offsets into the whole text.
pub fn text_to_phonemes(
    text: &str,
    language: &str,
    transcript: &Transcript,
    remove_lang_switch_flags: bool,
    remove_stress: bool,
) -> (result: ESpeakResult<Vec<(usize, usize, String)>>)
    requires
        initialized(transcript.sample_rate) && voice_selected(transcript.voice_status)
            ==> transcript_fits(text@, transcript.lines@),
    ensures
        !initialized(transcript.sample_rate) ==> (result matches Err(e) && e.0@ == init_failure()),
        initialized(transcript.sample_rate) && !voice_selected(transcript.voice_status) ==> (
        result matches Err(e) && e.0@ == voice_failure(language@)),
        initialized(transcript.sample_rate) && voice_selected(transcript.voice_status) ==> (
        result matches Ok(spans) && spans_of(spans@) == phoneme_spans(
            text@,
            transcript.lines@,
            remove_lang_switch_flags,
            remove_stress,
        )),
{
    match check_initialized(transcript.sample_rate) {
        Err(e) => {
            return Err(e);
        },
        Ok(_) => {},
    }
    match check_voice(transcript.voice_status, language) {
        Err(e) => {
            return Err(e);
        },
        Ok(_) => {},
    }
    let parts = split_lines(text);
    let none: Vec<Clause> = Vec::new();
    let ghost bytes = encode_utf8(text@);
    let ghost ranges = line_ranges(bytes);
    let mut phonemes: Vec<(usize, usize, String)> = Vec::new();
    let mut i: usize = 0;
    assert(spans_of(phonemes@) =~= Seq::<Span>::empty());
    while i < parts.len()
        invariant
            0 <= i <= parts.len(),
            none@.len() == 0,
            bytes == encode_utf8(text@),
            ranges == line_ranges(bytes),
            lines_match(bytes, ranges, parts@),
            transcript_fits(text@, transcript.lines@),
            spans_of(phonemes@) == spans_of_lines(
                bytes,
                transcript.lines@,
                remove_lang_switch_flags,
                remove_stress,
                i as int,
            ),
        decreases parts.len() - i,
    {
        let (base, line) = parts[i];
        let clauses = if i < transcript.lines.len() {
            &transcript.lines[i]
        } else {
            &none
        };
        assert(clauses@ =~= clauses_of(transcript.lines@, i as int));
        assert(offsets_fit(
            ranges[i as int].1 - ranges[i as int].0,
            ranges[i as int].0,
            clauses_of(transcript.lines@, i as int),
        ));
        let mut more = _text_to_phonemes(
            line,
            base,
            clauses,
            remove_lang_switch_flags,
            remove_stress,
        );
        let ghost before = spans_of(phonemes@);
        let ghost added = spans_of(more@);
        phonemes.append(&mut more);
        assert(spans_of(phonemes@) =~= before + added);
        i += 1;
    }
    Ok(phonemes)
}

} // verus!
