//! The backend session: what to make of the backend's answers when it is
//! initialized and when a voice is selected, and the mode flags that every
//! phonemization call is made with.
//!
//! The calls themselves are made by the caller. Here stand the decisions.

use vstd::prelude::*;
use vstd::string::*;
use crate::error::{ESpeakError, ESpeakResult};

verus! {

/// The status with which the backend reports success.
pub const EE_OK: i32 = 0;

/// Text mode: the text is UTF-8.
pub const CHARS_UTF8: i32 = 0x01;

/// Text mode: the text holds SSML markup.
pub const SSML: i32 = 0x10;

/// Phoneme mode: write the phonemes in IPA.
pub const PHONEME_IPA: i32 = 0x02;

/// The message of the error for a backend that could not be initialized.
pub open spec fn init_failure() -> Seq<char> {
    "Failed to initialize eSpeak-ng. Try setting `ESPEAK_DATA_PATH` environment variable to the directory that contains the `espeak-ng-data` directory."@
}

/// The message of the error for a voice that the backend refused.
pub open spec fn voice_failure(language: Seq<char>) -> Seq<char> {
    "Failed to set eSpeak-ng voice to: `"@ + language + "` "@
}

/// Whether the backend is initialized: it then reports a sample rate above 0.
pub open spec fn initialized(sample_rate: i32) -> bool {
    sample_rate > 0
}

/// Whether the backend took the voice.
pub open spec fn voice_selected(status: i32) -> bool {
    status == EE_OK
}

/// Judges the sample rate that the initialization of the backend returned.
pub fn check_initialized(sample_rate: i32) -> (outcome: ESpeakResult<()>)
    ensures
        initialized(sample_rate) ==> outcome is Ok,
        !initialized(sample_rate) ==> (outcome matches Err(e) && e.0@ == init_failure()),
{
    if sample_rate <= 0 {
        Err(
            ESpeakError(
                String::from_str(
                    "Failed to initialize eSpeak-ng. Try setting `ESPEAK_DATA_PATH` environment variable to the directory that contains the `espeak-ng-data` directory.",
                ),
            ),
        )
    } else {
        Ok(())
    }
}

/// Judges the status that the selection of the voice for `language` returned.
pub fn check_voice(status: i32, language: &str) -> (outcome: ESpeakResult<()>)
    ensures
        voice_selected(status) ==> outcome is Ok,
        !voice_selected(status) ==> (outcome matches Err(e) && e.0@ == voice_failure(language@)),
{
    if status != EE_OK {
        let mut message = String::from_str("Failed to set eSpeak-ng voice to: `");
        message.append(language);
        message.append("` ");
        Err(ESpeakError(message))
    } else {
        Ok(())
    }
}

/// The text mode of a phonemization call: UTF-8, with or without SSML.
pub open spec fn text_mode_of(is_ssml: bool) -> int {
    if is_ssml {
        0x11
    } else {
        0x01
    }
}

/// The phoneme mode of a phonemization call: IPA, and above its low eight
/// bits the character that is to separate the phonemes, if there is one.
pub open spec fn phoneme_mode_of(phoneme_separator: Option<char>) -> int {
    match phoneme_separator {
        Some(separator) => (separator as u32) * 0x100 + 0x02,
        None => 0x02,
    }
}

/// Computes the text mode for the backend.
pub fn text_mode(is_ssml: bool) -> (mode: i32)
    ensures
        mode == text_mode_of(is_ssml),
{
    if is_ssml {
        assert(CHARS_UTF8 | SSML == 0x11) by (bit_vector);
        CHARS_UTF8 | SSML
    } else {
        CHARS_UTF8
    }
}

/// Packs a separator into the phoneme mode, above the IPA flag.
fn packed_separator(separator: char) -> (mode: i32)
    ensures
        mode == phoneme_mode_of(Some(separator)),
{
    let code: u32 = separator as u32;
    let packed: u32 = (code << 8u32) | 0x02u32;
    assert(packed == code * 0x100 + 0x02 && packed <= 0x7FFF_FFFF) by (bit_vector)
        requires
            code <= 0x10FFFF,
            packed == (code << 8u32) | 0x02u32,
    ;
    packed as i32
}

/// Computes the phoneme mode for the backend.
pub fn phoneme_mode(phoneme_separator: Option<char>) -> (mode: i32)
    ensures
        mode == phoneme_mode_of(phoneme_separator),
{
    match phoneme_separator {
        Some(separator) => packed_separator(separator),
        None => PHONEME_IPA,
    }
}

} // verus!
