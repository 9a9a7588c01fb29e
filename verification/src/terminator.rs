//! The terminator code that the backend reports with every clause.
//!
//! The code is a bit mask. Two of its fields matter here: the intonation of
//! the clause, which becomes a punctuation mark in the phoneme text, and the
//! kind of boundary that the clause ends at.

use vstd::prelude::*;

verus! {

/// The bits of a terminator that hold the intonation.
pub const CLAUSE_INTONATION_MASK: i32 = 0x0000_F000;

pub const CLAUSE_INTONATION_FULL_STOP: i32 = 0x0000_0000;

pub const CLAUSE_INTONATION_COMMA: i32 = 0x0000_1000;

pub const CLAUSE_INTONATION_QUESTION: i32 = 0x0000_2000;

pub const CLAUSE_INTONATION_EXCLAMATION: i32 = 0x0000_3000;

/// The bit of a terminator that is set where a sentence ends.
pub const CLAUSE_TYPE_SENTENCE: i32 = 0x0008_0000;

/// The intonation field of a terminator.
pub open spec fn intonation(terminator: i32) -> i32 {
    terminator & CLAUSE_INTONATION_MASK
}

/// The punctuation that stands for the intonation of a terminator: one
/// character for a full stop, a comma, a question or an exclamation, and
/// nothing for any other intonation.
pub open spec fn intonation_mark(terminator: i32) -> Seq<char> {
    if intonation(terminator) == CLAUSE_INTONATION_FULL_STOP {
        seq!['.']
    } else if intonation(terminator) == CLAUSE_INTONATION_COMMA {
        seq![',']
    } else if intonation(terminator) == CLAUSE_INTONATION_QUESTION {
        seq!['?']
    } else if intonation(terminator) == CLAUSE_INTONATION_EXCLAMATION {
        seq!['!']
    } else {
        Seq::empty()
    }
}

/// Whether the clause that reported this terminator ends a sentence.
pub open spec fn ends_sentence(terminator: i32) -> bool {
    terminator & CLAUSE_TYPE_SENTENCE == CLAUSE_TYPE_SENTENCE
}

/// The punctuation mark of a terminator, as text to append.
pub fn punctuation(terminator: i32) -> (mark: &'static str)
    ensures
        mark@ == intonation_mark(terminator),
{
    proof {
        reveal_strlit(".");
        reveal_strlit(",");
        reveal_strlit("?");
        reveal_strlit("!");
        reveal_strlit("");
    }
    let field = terminator & CLAUSE_INTONATION_MASK;
    let mark = if field == CLAUSE_INTONATION_FULL_STOP {
        "."
    } else if field == CLAUSE_INTONATION_COMMA {
        ","
    } else if field == CLAUSE_INTONATION_QUESTION {
        "?"
    } else if field == CLAUSE_INTONATION_EXCLAMATION {
        "!"
    } else {
        ""
    };
    assert(mark@ =~= intonation_mark(terminator));
    mark
}

/// Tests the sentence bit of a terminator.
pub fn is_sentence_end(terminator: i32) -> (yes: bool)
    ensures
        yes == ends_sentence(terminator),
{
    terminator & CLAUSE_TYPE_SENTENCE == CLAUSE_TYPE_SENTENCE
}

} // verus!
