use espeak_phonemizer::phonemize::check_transcript;
use espeak_phonemizer::{text_to_phonemes, Clause, ESpeakResult, Transcript};

const TEXT_ALICE: &str =
    "Who are you? said the Caterpillar. Replied Alice , rather shyly, I hardly know, sir!";

const PERIOD: i32 = 0x0008_0028;
const COMMA: i32 = 0x0004_1014;
const QUESTION: i32 = 0x0008_2028;
const EXCLAMATION: i32 = 0x0008_302D;

fn clause(phonemes: &str, terminator: i32, cursor: Option<usize>) -> Clause {
    Clause { phonemes: phonemes.to_string(), terminator, cursor }
}

/// A backend that started, took the voice and answered with `lines`.
fn answered(lines: Vec<Vec<Clause>>) -> Transcript {
    Transcript { sample_rate: 22050, voice_status: 0, lines }
}

/// What the backend makes of `TEXT_ALICE` with the voice `en-US`.
fn alice() -> Transcript {
    answered(vec![vec![
        clause("hˈuː ɑːɹ juː", QUESTION, Some(14)),
        clause("sˈɛd ðə kˈæɾɚpˌɪlɚ", PERIOD, Some(36)),
        clause("ɹᵻplˈaɪd ˈælɪs", COMMA, Some(52)),
        clause("ɹˈæðɚ ʃˈaɪli", COMMA, Some(66)),
        clause("aɪ hˈɑːɹdli nˈoʊ", COMMA, Some(81)),
        clause("sˌɜː", EXCLAMATION, None),
    ]])
}

fn run(
    text: &str,
    language: &str,
    transcript: &Transcript,
    remove_lang_switch_flags: bool,
    remove_stress: bool,
) -> ESpeakResult<Vec<(usize, usize, String)>> {
    assert!(check_transcript(text, &transcript.lines));
    text_to_phonemes(text, language, transcript, remove_lang_switch_flags, remove_stress)
}

fn joined(spans: Vec<(usize, usize, String)>) -> String {
    spans.into_iter().map(|(_start, _end, p)| p).collect::<Vec<String>>().join("")
}

#[test]
fn test_basic_en() -> ESpeakResult<()> {
    let text = "test";
    let expected = "tˈɛst.";
    let transcript = answered(vec![vec![clause("tˈɛst", PERIOD, None)]]);
    let phonemes = joined(run(text, "en-US", &transcript, false, false)?);
    assert_eq!(phonemes, expected);
    Ok(())
}

#[test]
fn test_it_splits_sentences() -> ESpeakResult<()> {
    let phonemes_data = run(TEXT_ALICE, "en-US", &alice(), false, false)?;
    println!("{:?}", phonemes_data);
    assert_eq!(phonemes_data.len(), 3);
    assert_eq!(phonemes_data[0], (0, 13, "hˈuː ɑːɹ juː?".to_string()));
    assert_eq!(phonemes_data[1], (13, 35, "sˈɛd ðə kˈæɾɚpˌɪlɚ.".to_string()));
    assert_eq!(
        phonemes_data[2],
        (35, 83, "ɹᵻplˈaɪd ˈælɪs,ɹˈæðɚ ʃˈaɪli,aɪ hˈɑːɹdli nˈoʊ,sˌɜː!".to_string())
    );
    Ok(())
}

#[test]
fn test_it_adds_phoneme_separator() -> ESpeakResult<()> {
    let text = "test";
    let expected = "t_ˈɛ_s_t.";
    let transcript = answered(vec![vec![clause("t_ˈɛ_s_t", PERIOD, None)]]);
    let phonemes = joined(run(text, "en-US", &transcript, false, false)?);
    assert_eq!(phonemes, expected);
    Ok(())
}

#[test]
fn test_it_preserves_clause_breakers() -> ESpeakResult<()> {
    let phonemes = joined(run(TEXT_ALICE, "en-US", &alice(), false, false)?);
    let clause_breakers = ['.', ',', '?', '!'];
    for c in clause_breakers {
        assert_eq!(phonemes.contains(c), true, "Clause breaker `{}` not preserved", c);
    }
    Ok(())
}

#[test]
fn test_arabic() -> ESpeakResult<()> {
    let text = "مَرْحَبَاً بِكَ أَيُّهَا الْرَّجُلْ";
    let expected = "mˈarħabˌaː bikˌa ʔaˈiːuhˌaː alrrˈadʒul.";
    let transcript =
        answered(vec![vec![clause("mˈarħabˌaː bikˌa ʔaˈiːuhˌaː alrrˈadʒul", PERIOD, None)]]);
    let phonemes = joined(run(text, "ar", &transcript, false, false)?);
    assert_eq!(phonemes, expected);
    Ok(())
}

#[test]
fn test_lang_switch_flags() -> ESpeakResult<()> {
    let text = "Hello معناها مرحباً";
    let transcript =
        answered(vec![vec![clause("(en)həlˈəʊ(ar) maʕnˈaːhaː marħabˌan", PERIOD, None)]]);

    let with_lang_switch = joined(run(text, "ar", &transcript, false, false)?);
    assert_eq!(with_lang_switch.contains("(en)"), true);
    assert_eq!(with_lang_switch.contains("(ar)"), true);

    let without_lang_switch = joined(run(text, "ar", &transcript, true, false)?);
    assert_eq!(without_lang_switch.contains("(en)"), false);
    assert_eq!(without_lang_switch.contains("(ar)"), false);

    Ok(())
}

#[test]
fn test_stress() -> ESpeakResult<()> {
    let stress_markers = ['ˈ', 'ˌ'];

    let with_stress = joined(run(TEXT_ALICE, "en-US", &alice(), false, false)?);
    assert_eq!(with_stress.contains(stress_markers), true);

    let without_stress = joined(run(TEXT_ALICE, "en-US", &alice(), false, true)?);
    assert_eq!(without_stress.contains(stress_markers), false);

    Ok(())
}

#[test]
fn test_line_splitting() -> ESpeakResult<()> {
    let text = "Hello\nThere I love you. Say goodbye when you leave.\nAnd\nWelcome";
    let transcript = answered(vec![
        vec![clause("həlˈoʊ", PERIOD, None)],
        vec![
            clause("ðɛɹ aɪ lˈʌv juː", PERIOD, Some(19)),
            clause("sˈeɪ ɡʊdbˈaɪ wɛn juː lˈiːv", PERIOD, None),
        ],
        vec![clause("ænd", PERIOD, None)],
        vec![clause("wˈɛlkʌm", PERIOD, None)],
    ]);
    let phoneme_paragraphs = run(text, "en-US", &transcript, false, false)?;
    println!("{:?}", phoneme_paragraphs);

    assert_eq!(phoneme_paragraphs.len(), 5);
    assert_eq!(phoneme_paragraphs[0], (0, 5, "həlˈoʊ.".to_string()));
    assert_eq!(phoneme_paragraphs[1], (6, 30, "ðɛɹ aɪ lˈʌv juː.".to_string()));
    assert_eq!(phoneme_paragraphs[2], (30, 50, "sˈeɪ ɡʊdbˈaɪ wɛn juː lˈiːv.".to_string()));
    assert_eq!(phoneme_paragraphs[3], (52, 54, "ænd.".to_string()));
    assert_eq!(phoneme_paragraphs[4], (56, 62, "wˈɛlkʌm.".to_string()));
    Ok(())
}

#[test]
fn test_ssml() -> ESpeakResult<()> {
    let text = "<say-as interpret-as='characters'>hello world</say-as>";
    let expected = "ˌeɪtʃˌiːˈɛlˌɛlˈoʊ dˌʌbəljˌuːˌoʊˈɑːɹˌɛldˈiː.";
    let transcript = answered(vec![vec![clause(
        "ˌeɪtʃˌiːˈɛlˌɛlˈoʊ dˌʌbəljˌuːˌoʊˈɑːɹˌɛldˈiː",
        PERIOD,
        None,
    )]]);
    let phonemes = joined(run(text, "en-US", &transcript, false, false)?);
    assert_eq!(phonemes, expected);
    Ok(())
}
