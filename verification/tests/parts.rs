use espeak_phonemizer::boundary::word_boundaries;
use espeak_phonemizer::filter::{apply_filters, strip_lang_switch, strip_stress};
use espeak_phonemizer::lines::split_lines;
use espeak_phonemizer::phonemize::check_transcript;
use espeak_phonemizer::segment::{check_offsets, segment_line};
use espeak_phonemizer::session::{check_initialized, check_voice, phoneme_mode, text_mode};
use espeak_phonemizer::snap::snap;
use espeak_phonemizer::terminator::{is_sentence_end, punctuation};
use espeak_phonemizer::{_text_to_phonemes, text_to_phonemes, Clause, ESpeakError, Transcript};

const PERIOD: i32 = 0x0008_0028;
const COMMA: i32 = 0x0004_1014;
const QUESTION: i32 = 0x0008_2028;
const EXCLAMATION: i32 = 0x0008_302D;
const NO_INTONATION: i32 = 0x0000_4000;

fn told(phonemes: &str, terminator: i32, cursor: Option<usize>) -> Clause {
    Clause { phonemes: phonemes.to_string(), terminator, cursor }
}

fn span(start: usize, end: usize, phonemes: &str) -> (usize, usize, String) {
    (start, end, phonemes.to_string())
}

// The terminator code.

#[test]
fn punctuation_follows_the_intonation() {
    assert_eq!(punctuation(PERIOD), ".");
    assert_eq!(punctuation(COMMA), ",");
    assert_eq!(punctuation(QUESTION), "?");
    assert_eq!(punctuation(EXCLAMATION), "!");
    assert_eq!(punctuation(NO_INTONATION), "");
    assert_eq!(punctuation(0x0000_5000), "");
    assert_eq!(punctuation(0x0000_8000), "");
}

#[test]
fn only_the_sentence_bit_ends_a_sentence() {
    assert!(is_sentence_end(PERIOD));
    assert!(is_sentence_end(0x0009_0028));
    assert!(!is_sentence_end(COMMA));
    assert!(!is_sentence_end(0x0004_0000));
    assert!(!is_sentence_end(0));
}

// The word boundary index.

#[test]
fn index_marks_the_edges_of_words() {
    assert_eq!(word_boundaries("a b"), vec![true, true, true, true]);
    assert_eq!(
        word_boundaries("Hello!!"),
        vec![true, false, false, false, false, true, false, false]
    );
    assert_eq!(word_boundaries("test"), vec![true, false, false, false, true]);
}

#[test]
fn index_counts_bytes() {
    assert_eq!(word_boundaries("é"), vec![true, false, true]);
    assert_eq!(word_boundaries("né, x"), vec![true, false, false, true, false, true, true]);
}

#[test]
fn index_of_text_without_words_marks_nothing() {
    assert_eq!(word_boundaries(""), vec![false]);
    assert_eq!(word_boundaries("!?"), vec![false, false, false]);
}

// The clause segmenter.

#[test]
fn segmenter_counts_the_bytes_between_sentence_ends() {
    let clauses = vec![
        told("a", QUESTION, Some(14)),
        told("b", PERIOD, Some(36)),
        told("c", COMMA, Some(52)),
        told("d", EXCLAMATION, None),
    ];
    assert!(check_offsets(84, 0, &clauses));
    assert_eq!(
        segment_line(84, 0, &clauses),
        vec![span(0, 13, "a?"), span(13, 34, "b."), span(34, 83, "c,d!")]
    );
}

#[test]
fn segmenter_adds_the_base_offset_to_every_end() {
    let clauses = vec![told("a", PERIOD, Some(19)), told("b", PERIOD, None)];
    assert!(check_offsets(45, 6, &clauses));
    assert_eq!(segment_line(45, 6, &clauses), vec![span(6, 30, "a."), span(30, 50, "b.")]);
}

#[test]
fn segmenter_repeats_the_last_offsets_for_trailing_text() {
    let clauses = vec![told("a", PERIOD, Some(3)), told("b", COMMA, None)];
    assert!(check_offsets(9, 2, &clauses));
    assert_eq!(segment_line(9, 2, &clauses), vec![span(2, 6, "a."), span(2, 6, "b,")]);
}

#[test]
fn segmenter_without_a_sentence_end_stays_at_the_base_offset() {
    let clauses = vec![told("a", COMMA, Some(2)), told("b", NO_INTONATION, None)];
    assert!(check_offsets(5, 7, &clauses));
    assert_eq!(segment_line(5, 7, &clauses), vec![span(7, 7, "a,b")]);
}

#[test]
fn segmenter_makes_no_span_of_nothing() {
    assert_eq!(segment_line(5, 7, &Vec::new()), Vec::new());
    let silent = vec![told("", NO_INTONATION, None)];
    assert!(check_offsets(0, 7, &silent));
    assert_eq!(segment_line(0, 7, &silent), Vec::new());
}

#[test]
fn segmenter_stops_at_the_exhausted_cursor() {
    let clauses = vec![told("a", PERIOD, None), told("b", PERIOD, Some(1))];
    assert!(check_offsets(4, 0, &clauses));
    assert_eq!(segment_line(4, 0, &clauses), vec![span(0, 3, "a.")]);
}

#[test]
fn offsets_below_zero_do_not_fit() {
    assert!(!check_offsets(0, 0, &vec![told("", PERIOD, None)]));
    assert!(!check_offsets(4, 0, &vec![told("a", PERIOD, Some(0)), told("b", PERIOD, None)]));
    assert!(check_offsets(4, 1, &vec![told("a", PERIOD, Some(0)), told("b", PERIOD, None)]));
}

#[test]
fn offsets_above_the_largest_do_not_fit() {
    let clauses = vec![told("a", PERIOD, Some(2)), told("b", PERIOD, Some(3))];
    assert!(!check_offsets(4, usize::MAX / 2 + 1, &clauses));
    assert!(check_offsets(4, 10, &clauses));
}

// The boundary snapper.

#[test]
fn snapper_moves_offsets_forward_to_a_boundary() {
    let table = word_boundaries("Who are you? said");
    let raw = vec![span(1, 12, "x"), span(12, 14, "y")];
    assert_eq!(snap(&raw, &table), vec![span(3, 13, "x"), span(13, 17, "y")]);
}

#[test]
fn snapper_holds_the_start_back_at_the_raw_end() {
    let table = word_boundaries("abcdef");
    assert_eq!(snap(&vec![span(1, 3, "x")], &table), vec![span(3, 6, "x")]);
    assert_eq!(snap(&vec![span(4, 2, "x")], &table), vec![span(4, 6, "x")]);
}

#[test]
fn snapper_leaves_offsets_beyond_the_index() {
    let table = word_boundaries("And");
    assert_eq!(snap(&vec![span(52, 54, "x")], &table), vec![span(52, 54, "x")]);
    let table = word_boundaries("!!");
    assert_eq!(snap(&vec![span(0, 1, "x")], &table), vec![span(1, 3, "x")]);
}

// The output filters.

#[test]
fn lang_switch_filter_removes_annotations() {
    assert_eq!(strip_lang_switch("(en)həlˈəʊ(ar) maʕnˈaː"), "həlˈəʊ maʕnˈaː");
    assert_eq!(strip_lang_switch("a()b"), "ab");
    assert_eq!(strip_lang_switch("plain"), "plain");
    assert_eq!(strip_lang_switch(""), "");
}

#[test]
fn lang_switch_filter_ends_an_annotation_at_the_nearest_closing() {
    assert_eq!(strip_lang_switch("(a(b)c"), "c");
    assert_eq!(strip_lang_switch("((a)b)"), "b)");
    assert_eq!(strip_lang_switch("x)y(z)"), "x)y");
    assert_eq!(strip_lang_switch("(a\nb)c"), "c");
}

#[test]
fn lang_switch_filter_keeps_an_opening_without_a_closing() {
    assert_eq!(strip_lang_switch("a(b"), "a(b");
    assert_eq!(strip_lang_switch("(a)(b"), "(b");
    assert_eq!(strip_lang_switch(")("), ")(");
}

#[test]
fn stress_filter_removes_both_marks() {
    assert_eq!(strip_stress("hˈuː ɑːɹ kˈæɾɚpˌɪlɚ"), "huː ɑːɹ kæɾɚpɪlɚ");
    assert_eq!(strip_stress("\u{2c8}\u{2cc}"), "");
    assert_eq!(strip_stress("a'b,c"), "a'b,c");
}

#[test]
fn filters_commute() {
    for text in ["(en)hˈɛ(ar)lˌo", "ˈ(ˌ)ˈ", "(ˈ", "a(bˌ)c)", "ˌ)ˈ(ˌ"] {
        assert_eq!(
            strip_stress(&strip_lang_switch(text)),
            strip_lang_switch(&strip_stress(text))
        );
    }
}

#[test]
fn filtering_twice_changes_nothing() {
    for text in ["(en)hˈɛ(ar)lˌo", "((a)b)", "(a)(b", "ˈˈˌ", "x)y(z)("] {
        let once = strip_lang_switch(text);
        assert_eq!(strip_lang_switch(&once), once);
        let once = strip_stress(text);
        assert_eq!(strip_stress(&once), once);
    }
}

#[test]
fn filters_keep_the_offsets() {
    let spans = vec![span(0, 5, "(en)hˈɛ"), span(7, 3, "lˌo")];
    assert_eq!(apply_filters(spans.clone(), false, false), spans);
    assert_eq!(
        apply_filters(spans.clone(), true, false),
        vec![span(0, 5, "hˈɛ"), span(7, 3, "lˌo")]
    );
    assert_eq!(
        apply_filters(spans.clone(), false, true),
        vec![span(0, 5, "(en)hɛ"), span(7, 3, "lo")]
    );
    assert_eq!(apply_filters(spans, true, true), vec![span(0, 5, "hɛ"), span(7, 3, "lo")]);
}

// The line splitter.

#[test]
fn lines_come_with_their_offsets() {
    assert_eq!(
        split_lines("Hello\nThere I love you.\nAnd\nWelcome"),
        vec![(0, "Hello"), (6, "There I love you."), (24, "And"), (28, "Welcome")]
    );
}

#[test]
fn line_endings_are_told_apart() {
    assert_eq!(split_lines(""), Vec::<(usize, &str)>::new());
    assert_eq!(split_lines("a"), vec![(0, "a")]);
    assert_eq!(split_lines("a\n"), vec![(0, "a")]);
    assert_eq!(split_lines("a\r\nb"), vec![(0, "a"), (3, "b")]);
    assert_eq!(split_lines("a\r"), vec![(0, "a\r")]);
    assert_eq!(split_lines("a\rb\n"), vec![(0, "a\rb")]);
    assert_eq!(split_lines("\n\nx"), vec![(0, ""), (1, ""), (2, "x")]);
    assert_eq!(split_lines("\r\n"), vec![(0, "")]);
    assert_eq!(split_lines("a\r\r\n"), vec![(0, "a\r")]);
}

#[test]
fn lines_are_those_of_the_standard_library() {
    for text in ["", "a", "a\nb\r\nc", "é\n\nü\r", "\r\n\r\n", "x\n", "мир\nмир\r\nмир"] {
        let ours: Vec<&str> = split_lines(text).into_iter().map(|(_, line)| line).collect();
        let theirs: Vec<&str> = text.lines().collect();
        assert_eq!(ours, theirs);
        for (base, line) in split_lines(text) {
            assert_eq!(&text[base..base + line.len()], line);
        }
    }
}

// The backend session.

#[test]
fn a_backend_without_a_sample_rate_is_not_initialized() {
    assert!(check_initialized(22050).is_ok());
    assert!(check_initialized(1).is_ok());
    for rate in [0, -1, i32::MIN] {
        let error = check_initialized(rate).unwrap_err();
        assert_eq!(
            error.0,
            "Failed to initialize eSpeak-ng. Try setting `ESPEAK_DATA_PATH` environment variable to the directory that contains the `espeak-ng-data` directory."
        );
    }
}

#[test]
fn a_refused_voice_is_named_in_the_error() {
    assert!(check_voice(0, "en-US").is_ok());
    let error = check_voice(2, "xx-YY").unwrap_err();
    assert_eq!(error.0, "Failed to set eSpeak-ng voice to: `xx-YY` ");
    let error = check_voice(-1, "").unwrap_err();
    assert_eq!(error.0, "Failed to set eSpeak-ng voice to: `` ");
}

#[test]
fn modes_are_packed_for_the_backend() {
    assert_eq!(text_mode(false), 0x01);
    assert_eq!(text_mode(true), 0x11);
    assert_eq!(phoneme_mode(None), 0x02);
    assert_eq!(phoneme_mode(Some('_')), 0x5F02);
    assert_eq!(phoneme_mode(Some('\u{10FFFF}')), 0x10FF_FF02);
    assert_eq!(phoneme_mode(Some('\0')), 0x02);
}

#[test]
fn errors_are_shown_with_their_prefix() {
    let error = ESpeakError("no voice".to_string());
    assert_eq!(error.to_string(), "eSpeak-ng Error :no voice");
    assert_eq!(ESpeakError(String::new()).to_string(), "eSpeak-ng Error :");
}

// From text to spans.

fn answered(lines: Vec<Vec<Clause>>) -> Transcript {
    Transcript { sample_rate: 22050, voice_status: 0, lines }
}

#[test]
fn one_line_goes_through_all_stages() {
    let clauses = vec![told("(en)tˈɛst", PERIOD, None)];
    assert_eq!(_text_to_phonemes("test", 0, &clauses, false, false), vec![span(0, 4, "(en)tˈɛst.")]);
    assert_eq!(_text_to_phonemes("test", 0, &clauses, true, true), vec![span(0, 4, "tɛst.")]);
    assert_eq!(_text_to_phonemes("te st", 1, &clauses, true, false), vec![span(2, 5, "tˈɛst.")]);
}

#[test]
fn a_failed_initialization_yields_no_spans() {
    let transcript = Transcript {
        sample_rate: -1,
        voice_status: 0,
        lines: vec![vec![told("tˈɛst", PERIOD, None)]],
    };
    let error = text_to_phonemes("test", "en-US", &transcript, false, false).unwrap_err();
    assert!(error.0.starts_with("Failed to initialize eSpeak-ng."));
    let again = text_to_phonemes("test", "en-US", &transcript, false, false).unwrap_err();
    assert_eq!(again.0, error.0);
}

#[test]
fn a_refused_voice_yields_no_spans() {
    let transcript = Transcript { sample_rate: 22050, voice_status: 2, lines: Vec::new() };
    let error = text_to_phonemes("test", "tlh", &transcript, false, false).unwrap_err();
    assert_eq!(error.0, "Failed to set eSpeak-ng voice to: `tlh` ");
    let error = text_to_phonemes("", "tlh", &transcript, false, false).unwrap_err();
    assert_eq!(error.0, "Failed to set eSpeak-ng voice to: `tlh` ");
}

#[test]
fn a_failed_initialization_comes_before_a_refused_voice() {
    let transcript = Transcript { sample_rate: 0, voice_status: 2, lines: Vec::new() };
    let error = text_to_phonemes("test", "tlh", &transcript, false, false).unwrap_err();
    assert!(error.0.starts_with("Failed to initialize eSpeak-ng."));
}

#[test]
fn blank_lines_make_no_spans_but_count_their_bytes() {
    let text = "One.\n\n\r\nTwo.";
    let transcript = answered(vec![
        vec![told("wˈʌn", PERIOD, None)],
        vec![told("", NO_INTONATION, None)],
        vec![told("", NO_INTONATION, None)],
        vec![told("tˈuː", PERIOD, None)],
    ]);
    assert!(check_transcript(text, &transcript.lines));
    assert_eq!(
        text_to_phonemes(text, "en-US", &transcript, false, false).unwrap(),
        vec![span(0, 3, "wˈʌn."), span(8, 11, "tˈuː.")]
    );
}

#[test]
fn lines_without_clauses_make_no_spans() {
    let text = "One.\nTwo.";
    let transcript = answered(vec![vec![told("wˈʌn", PERIOD, None)]]);
    assert!(check_transcript(text, &transcript.lines));
    assert_eq!(
        text_to_phonemes(text, "en-US", &transcript, false, false).unwrap(),
        vec![span(0, 3, "wˈʌn.")]
    );
    assert_eq!(text_to_phonemes("", "en-US", &transcript, false, false).unwrap(), Vec::new());
}

#[test]
fn a_transcript_fits_line_by_line() {
    let lines = vec![vec![told("a", PERIOD, None)], vec![told("", PERIOD, None)]];
    assert!(check_transcript("a\n", &lines));
    assert!(check_transcript("a\n\nb", &lines));
    assert!(!check_transcript("\na", &vec![vec![told("", PERIOD, None)]]));
}

#[test]
fn spans_of_a_line_read_forward_come_in_order() {
    let text = "Who are you? said the Caterpillar. Replied Alice , rather shyly, I hardly know, sir!";
    let transcript = answered(vec![vec![
        told("hˈuː ɑːɹ juː", QUESTION, Some(14)),
        told("sˈɛd ðə kˈæɾɚpˌɪlɚ", PERIOD, Some(36)),
        told("ɹᵻplˈaɪd ˈælɪs", COMMA, Some(52)),
        told("sˌɜː", EXCLAMATION, None),
    ]]);
    assert!(check_transcript(text, &transcript.lines));
    let spans = text_to_phonemes(text, "en-US", &transcript, false, false).unwrap();
    let table = word_boundaries(text);
    for pair in spans.windows(2) {
        assert!(pair[0].0 <= pair[1].0);
    }
    for (start, end, _) in &spans {
        assert!(start <= end);
        assert!(table[*start] && table[*end]);
    }
}

#[test]
fn offsets_go_on_from_line_to_line() {
    let text = "Hello\nThere I love you. Say goodbye when you leave.\nAnd\nWelcome";
    let transcript = answered(vec![
        vec![told("a", PERIOD, None)],
        vec![told("b", PERIOD, Some(19)), told("c", PERIOD, None)],
        vec![told("d", PERIOD, None)],
        vec![told("e", PERIOD, None)],
    ]);
    assert!(check_transcript(text, &transcript.lines));
    let plain = text_to_phonemes(text, "en-US", &transcript, false, false).unwrap();
    assert_eq!(
        plain,
        vec![span(0, 5, "a."), span(6, 30, "b."), span(30, 50, "c."), span(52, 54, "d."), span(56, 62, "e.")]
    );
    let filtered = text_to_phonemes(text, "en-US", &transcript, true, true).unwrap();
    assert_eq!(filtered, plain);
}

#[test]
fn a_second_sentence_far_into_the_text_may_end_before_it_starts() {
    let text = "ab\nA. B.";
    let transcript = answered(vec![
        vec![told("a", PERIOD, None)],
        vec![told("b", PERIOD, Some(4)), told("c", PERIOD, None)],
    ]);
    assert!(check_transcript(text, &transcript.lines));
    assert_eq!(
        text_to_phonemes(text, "en-US", &transcript, false, false).unwrap(),
        vec![span(0, 2, "a."), span(3, 9, "b."), span(9, 7, "c.")]
    );
}

#[test]
fn trailing_text_far_into_the_text_may_reach_past_its_line() {
    let text = "ab\nA. B\nC";
    let transcript = answered(vec![
        vec![told("a", PERIOD, None)],
        vec![told("b", PERIOD, Some(4)), told("c", COMMA, None)],
        vec![told("d", PERIOD, None)],
    ]);
    assert!(check_transcript(text, &transcript.lines));
    assert_eq!(
        text_to_phonemes(text, "en-US", &transcript, false, false).unwrap(),
        vec![span(0, 2, "a."), span(3, 9, "b."), span(3, 9, "c,"), span(8, 8, "d.")]
    );
}

#[test]
fn an_end_may_lie_beyond_a_text_that_ends_without_a_word() {
    let transcript = answered(vec![vec![told("a", PERIOD, None)]]);
    assert!(check_transcript("Hello!!", &transcript.lines));
    assert_eq!(
        text_to_phonemes("Hello!!", "en-US", &transcript, false, false).unwrap(),
        vec![span(0, 8, "a.")]
    );
}
