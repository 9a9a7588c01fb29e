//! Aligns the phoneme output of an eSpeak-ng style backend with the text
//! that produced it.
//!
//! The backend turns a cursor into a line of text into one clause of phonetic
//! symbols at a time. This crate holds everything around that primitive: it
//! splits the text into lines, folds the clauses of each line into spans with
//! byte offsets into the whole text, moves the offsets onto word boundaries
//! and filters the phoneme text. The backend itself is driven by the caller,
//! who hands its answers over as a [`Transcript`].

pub mod boundary;
pub mod error;
pub mod filter;
pub mod guarantees;
pub mod lines;
pub mod phonemize;
pub mod segment;
pub mod session;
pub mod snap;
pub mod span;
pub mod terminator;

pub use error::{ESpeakError, ESpeakResult};
pub use phonemize::{_text_to_phonemes, text_to_phonemes, Transcript};
pub use segment::Clause;
