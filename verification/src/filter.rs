//! The output filters: two ways to thin out the phoneme text of a span.
//!
//! The backend writes an annotation such as `(en)` where it changes to the
//! sounds of another language, and marks stressed syllables. Either can be
//! taken out again. Both filters are patterns that the `regex` crate applies.

use regex::Regex;
use vstd::prelude::*;
use vstd::string::*;
use crate::span::{Span, span_of, spans_of};

verus! {

/// The pattern of a language switch annotation: an opening parenthesis, any
/// characters but a closing parenthesis, and a closing parenthesis.
pub const LANG_SWITCH: &'static str = "\\([^)]*\\)";

/// The pattern of a stress mark: the primary or the secondary one.
pub const STRESS: &'static str = "[\u{2c8}\u{2cc}]";

/// Stress marks are the modifier letters vertical line and low vertical line.
pub open spec fn is_stress_mark(c: char) -> bool {
    c == '\u{2c8}' || c == '\u{2cc}'
}

/// The text without its stress marks.
pub open spec fn without_stress(text: Seq<char>) -> Seq<char> {
    text.filter(|c: char| !is_stress_mark(c))
}

/// Where the first closing parenthesis of `text` stands; the length of `text`
/// if it has none.
pub open spec fn first_closing(text: Seq<char>) -> int
    decreases text.len(),
{
    if text.len() == 0 || text[0] == ')' {
        0
    } else {
        1 + first_closing(text.skip(1))
    }
}

/// The text without its language switch annotations. Read from the left, an
/// opening parenthesis that a closing one follows somewhere starts an
/// annotation, which ends at the nearest closing parenthesis. What stands
/// outside the annotations is kept.
pub open spec fn without_lang_switch(text: Seq<char>) -> Seq<char>
    decreases text.len(),
    via without_lang_switch_ends
{
    if text.len() == 0 {
        text
    } else if text[0] == '(' && first_closing(text) < text.len() {
        without_lang_switch(text.skip(first_closing(text) + 1))
    } else {
        seq![text[0]] + without_lang_switch(text.skip(1))
    }
}

/// The first closing parenthesis stands within the text or at its end.
pub proof fn lemma_first_closing(text: Seq<char>)
    ensures
        0 <= first_closing(text) <= text.len(),
        first_closing(text) < text.len() ==> text[first_closing(text)] == ')',
        forall|at: int| 0 <= at < first_closing(text) ==> text[at] != ')',
    decreases text.len(),
{
    if !(text.len() == 0 || text[0] == ')') {
        lemma_first_closing(text.skip(1));
        assert forall|at: int| 0 <= at < first_closing(text) implies text[at] != ')' by {
            if at > 0 {
                assert(text.skip(1)[at - 1] == text[at]);
            }
        }
    }
}

#[via_fn]
proof fn without_lang_switch_ends(text: Seq<char>) {
    lemma_first_closing(text);
}

/// `Regex::new(pattern)`, then `Regex::replace_all(text, "")`, which removes
/// every match, found from the left and without overlap. The contract says
/// what that leaves for each of the two patterns of this module: it rests on
/// how `regex` reads these patterns, and is not proved here. Both patterns
/// are ones that `Regex::new` accepts.
#[verifier::external_body]
fn erase_matches(pattern: &str, text: &str) -> (rest: String)
    requires
        pattern@ == LANG_SWITCH@ || pattern@ == STRESS@,
    ensures
        pattern@ == LANG_SWITCH@ ==> rest@ == without_lang_switch(text@),
        pattern@ == STRESS@ ==> rest@ == without_stress(text@),
{
    Regex::new(pattern).unwrap().replace_all(text, "").into_owned()
}

/// Removes the language switch annotations from phoneme text.
pub fn strip_lang_switch(phonemes: &str) -> (stripped: String)
    ensures
        stripped@ == without_lang_switch(phonemes@),
{
    erase_matches(LANG_SWITCH, phonemes)
}

/// Removes the stress marks from phoneme text.
pub fn strip_stress(phonemes: &str) -> (stripped: String)
    ensures
        stripped@ == without_stress(phonemes@),
{
    erase_matches(STRESS, phonemes)
}

/// Phoneme text after the filters that were asked for, the one for language
/// switches first.
pub open spec fn filtered_text(
    text: Seq<char>,
    remove_lang_switch_flags: bool,
    remove_stress: bool,
) -> Seq<char> {
    let text = if remove_lang_switch_flags {
        without_lang_switch(text)
    } else {
        text
    };
    if remove_stress {
        without_stress(text)
    } else {
        text
    }
}

/// A span with its phoneme text filtered and its offsets as they were.
pub open spec fn filtered_span(span: Span, remove_lang_switch_flags: bool, remove_stress: bool) -> Span {
    Span {
        phonemes: filtered_text(span.phonemes, remove_lang_switch_flags, remove_stress),
        ..span
    }
}

/// Every span filtered, in the same order.
pub open spec fn filtered(spans: Seq<Span>, remove_lang_switch_flags: bool, remove_stress: bool) -> Seq<
    Span,
> {
    Seq::new(
        spans.len(),
        |i: int| filtered_span(spans[i], remove_lang_switch_flags, remove_stress),
    )
}

/// Applies the filters that were asked for to the phoneme text of every span.
pub fn apply_filters(
    spans: Vec<(usize, usize, String)>,
    remove_lang_switch_flags: bool,
    remove_stress: bool,
) -> (out: Vec<(usize, usize, String)>)
    ensures
        out@.len() == spans@.len(),
        spans_of(out@) == filtered(spans_of(spans@), remove_lang_switch_flags, remove_stress),
{
    if !remove_lang_switch_flags && !remove_stress {
        assert(spans_of(spans@) =~= filtered(spans_of(spans@), false, false));
        return spans;
    }
    let mut out: Vec<(usize, usize, String)> = Vec::new();
    let mut i: usize = 0;
    while i < spans.len()
        invariant
            0 <= i <= spans.len(),
            out.len() == i,
            forall|k: int|
                0 <= k < i ==> span_of(out[k]) == filtered_span(
                    span_of(spans[k]),
                    remove_lang_switch_flags,
                    remove_stress,
                ),
        decreases spans.len() - i,
    {
        let mut text = spans[i].2.clone();
        if remove_lang_switch_flags {
            text = strip_lang_switch(text.as_str());
        }
        if remove_stress {
            text = strip_stress(text.as_str());
        }
        out.push((spans[i].0, spans[i].1, text));
        i += 1;
    }
    assert(spans_of(out@) =~= filtered(
        spans_of(spans@),
        remove_lang_switch_flags,
        remove_stress,
    ));
    out
}

/// The filters change the phoneme text of the spans and nothing else: as
/// many spans come out as went in, each with the offsets it had.
pub proof fn lemma_filters_keep_offsets(
    spans: Seq<Span>,
    remove_lang_switch_flags: bool,
    remove_stress: bool,
)
    ensures
        filtered(spans, remove_lang_switch_flags, remove_stress).len() == spans.len(),
        forall|i: int|
            0 <= i < spans.len() ==> {
                &&& (#[trigger] filtered(spans, remove_lang_switch_flags, remove_stress)[i]).start
                    == spans[i].start
                &&& filtered(spans, remove_lang_switch_flags, remove_stress)[i].end == spans[i].end
            },
{
}

/// Removing the stress marks from a text in two parts is removing them from
/// each part.
pub proof fn lemma_without_stress_of_parts(head: Seq<char>, tail: Seq<char>)
    ensures
        without_stress(head + tail) == without_stress(head) + without_stress(tail),
{
    Seq::filter_distributes_over_add(head, tail, |c: char| !is_stress_mark(c));
}

/// Removing the stress marks from one character keeps it or drops it.
pub proof fn lemma_without_stress_of_one(c: char)
    ensures
        without_stress(seq![c]) == if is_stress_mark(c) {
            Seq::<char>::empty()
        } else {
            seq![c]
        },
        without_stress(Seq::<char>::empty()) == Seq::<char>::empty(),
{
    reveal_with_fuel(Seq::filter, 2);
    assert(seq![c].drop_last() =~= Seq::<char>::empty());
    assert(Seq::<char>::empty().push(c) =~= seq![c]);
}

/// Removing the stress marks takes no closing parenthesis away and adds none.
pub proof fn lemma_without_stress_keeps_closing(text: Seq<char>)
    ensures
        first_closing(text) == text.len() <==> first_closing(without_stress(text))
            == without_stress(text).len(),
        first_closing(without_stress(text)) == without_stress(
            text.take(first_closing(text)),
        ).len(),
    decreases text.len(),
{
    lemma_first_closing(text);
    lemma_first_closing(without_stress(text));
    if text.len() == 0 {
        lemma_without_stress_of_one('x');
        assert(text =~= Seq::<char>::empty());
        assert(text.take(0) =~= text);
    } else {
        let tail = text.skip(1);
        assert(text =~= seq![text[0]] + tail);
        lemma_without_stress_of_parts(seq![text[0]], tail);
        lemma_without_stress_of_one(text[0]);
        lemma_without_stress_keeps_closing(tail);
        lemma_first_closing(tail);
        lemma_first_closing(without_stress(tail));
        if text[0] == ')' {
            assert(without_stress(text) =~= seq![text[0]] + without_stress(tail));
            assert(without_stress(text)[0] == ')');
            assert(text.take(0) =~= Seq::<char>::empty());
        } else {
            let n = first_closing(tail);
            assert(first_closing(text) == 1 + n);
            assert(text.take(1 + n) =~= seq![text[0]] + tail.take(n));
            lemma_without_stress_of_parts(seq![text[0]], tail.take(n));
            if is_stress_mark(text[0]) {
                assert(without_stress(text) =~= without_stress(tail));
            } else {
                let kept = without_stress(text);
                assert(kept =~= seq![text[0]] + without_stress(tail));
                assert(kept.skip(1) =~= without_stress(tail));
            }
        }
    }
}

/// The two filters can be applied in either order: the phoneme text that
/// comes out is the same.
pub proof fn lemma_filters_commute(text: Seq<char>)
    ensures
        without_stress(without_lang_switch(text)) == without_lang_switch(without_stress(text)),
    decreases text.len(),
{
    lemma_first_closing(text);
    lemma_without_stress_of_one('x');
    if text.len() == 0 {
        assert(text =~= Seq::<char>::empty());
    } else if text[0] == '(' && first_closing(text) < text.len() {
        let close = first_closing(text);
        let head = text.take(close);
        let rest = text.skip(close + 1);
        lemma_filters_commute(rest);
        lemma_without_stress_keeps_closing(text);
        let thin = without_stress(text);
        lemma_first_closing(thin);
        assert(text =~= head + (seq![')'] + rest));
        lemma_without_stress_of_parts(head, seq![')'] + rest);
        lemma_without_stress_of_parts(seq![')'], rest);
        lemma_without_stress_of_one(')');
        assert(head =~= seq!['('] + head.skip(1));
        lemma_without_stress_of_parts(seq!['('], head.skip(1));
        lemma_without_stress_of_one('(');
        assert(thin =~= without_stress(head) + (seq![')'] + without_stress(rest)));
        assert(thin[0] == '(');
        assert(thin.skip(first_closing(thin) + 1) =~= without_stress(rest));
    } else {
        let tail = text.skip(1);
        lemma_filters_commute(tail);
        assert(text =~= seq![text[0]] + tail);
        lemma_without_stress_of_parts(seq![text[0]], tail);
        lemma_without_stress_of_parts(seq![text[0]], without_lang_switch(tail));
        lemma_without_stress_of_one(text[0]);
        if is_stress_mark(text[0]) {
            assert(without_stress(text) =~= without_stress(tail));
        } else {
            let thin = without_stress(text);
            assert(thin =~= seq![text[0]] + without_stress(tail));
            assert(thin.skip(1) =~= without_stress(tail));
            lemma_without_stress_keeps_closing(text);
        }
    }
}

/// Removing the stress marks a second time changes nothing.
pub proof fn lemma_strip_stress_twice(text: Seq<char>)
    ensures
        without_stress(without_stress(text)) == without_stress(text),
    decreases text.len(),
{
    lemma_without_stress_of_one('x');
    if text.len() == 0 {
        assert(text =~= Seq::<char>::empty());
    } else {
        let tail = text.skip(1);
        lemma_strip_stress_twice(tail);
        assert(text =~= seq![text[0]] + tail);
        lemma_without_stress_of_parts(seq![text[0]], tail);
        lemma_without_stress_of_one(text[0]);
        lemma_without_stress_of_parts(without_stress(seq![text[0]]), without_stress(tail));
    }
}

/// A text in which no closing parenthesis follows an opening one: it holds
/// no annotation.
pub open spec fn has_no_annotation(text: Seq<char>) -> bool {
    forall|i: int, j: int| 0 <= i < j < text.len() ==> !(text[i] == '(' && text[j] == ')')
}

/// A text without annotations passes the filter unchanged.
pub proof fn lemma_nothing_to_strip(text: Seq<char>)
    requires
        has_no_annotation(text),
    ensures
        without_lang_switch(text) == text,
    decreases text.len(),
{
    lemma_first_closing(text);
    if text.len() > 0 {
        let tail = text.skip(1);
        assert forall|i: int, j: int| 0 <= i < j < tail.len() implies !(tail[i] == '(' && tail[j]
            == ')') by {
            assert(tail[i] == text[i + 1] && tail[j] == text[j + 1]);
        }
        lemma_nothing_to_strip(tail);
        assert(text =~= seq![text[0]] + tail);
    }
}

/// What the filter leaves holds no annotation, and holds a closing
/// parenthesis only where the text held one.
pub proof fn lemma_stripped_has_no_annotation(text: Seq<char>)
    ensures
        has_no_annotation(without_lang_switch(text)),
        first_closing(text) == text.len() ==> without_lang_switch(text) == text,
    decreases text.len(),
{
    lemma_first_closing(text);
    if text.len() == 0 {
    } else if text[0] == '(' && first_closing(text) < text.len() {
        lemma_stripped_has_no_annotation(text.skip(first_closing(text) + 1));
    } else {
        let tail = text.skip(1);
        let kept = without_lang_switch(tail);
        lemma_stripped_has_no_annotation(tail);
        lemma_first_closing(tail);
        let out = without_lang_switch(text);
        assert(out =~= seq![text[0]] + kept);
        if first_closing(text) == text.len() {
            assert forall|at: int| 0 <= at < tail.len() implies tail[at] != ')' by {
                assert(tail[at] == text[at + 1]);
            }
            assert(first_closing(tail) == tail.len());
            assert(text =~= seq![text[0]] + tail);
        }
        assert forall|i: int, j: int| 0 <= i < j < out.len() implies !(out[i] == '(' && out[j]
            == ')') by {
            if i == 0 {
                if text[0] == '(' {
                    assert(kept == tail);
                    assert(out[j] == text[j]);
                }
            } else {
                assert(out[i] == kept[i - 1] && out[j] == kept[j - 1]);
            }
        }
    }
}

/// Removing the language switch annotations a second time changes nothing.
pub proof fn lemma_strip_lang_switch_twice(text: Seq<char>)
    ensures
        without_lang_switch(without_lang_switch(text)) == without_lang_switch(text),
{
    lemma_stripped_has_no_annotation(text);
    lemma_nothing_to_strip(without_lang_switch(text));
}

/// Filtering text that went through the same filters before changes nothing.
pub proof fn lemma_filtering_twice(
    text: Seq<char>,
    remove_lang_switch_flags: bool,
    remove_stress: bool,
)
    ensures
        filtered_text(
            filtered_text(text, remove_lang_switch_flags, remove_stress),
            remove_lang_switch_flags,
            remove_stress,
        ) == filtered_text(text, remove_lang_switch_flags, remove_stress),
{
    lemma_strip_lang_switch_twice(text);
    lemma_strip_stress_twice(text);
    if remove_lang_switch_flags && remove_stress {
        let bare = without_lang_switch(text);
        lemma_filters_commute(bare);
        lemma_strip_stress_twice(bare);
    }
}

} // verus!
