//! The word boundary index of a text.
//!
//! A word boundary is a byte position between a character that belongs to a
//! word and one that does not; the start and the end of the text count as
//! characters that do not. Which characters belong to a word is a matter of
//! Unicode tables, so the positions are found by the `regex` crate.

use regex::Regex;
use vstd::prelude::*;
use vstd::string::*;
use vstd::utf8::encode_utf8;

verus! {

/// The pattern that matches, with an empty match, at every word boundary.
pub const WORD_BOUNDARY: &'static str = "\\b";

/// The byte offsets at which the matches of `pattern` in `text` start, in the
/// order in which `regex` finds them.
pub uninterp spec fn regex_match_starts(pattern: Seq<char>, text: Seq<char>) -> Seq<usize>;

/// `Regex::new(pattern)`, then `Regex::find_iter(text)` with `Match::start`
/// of every match. The contract gives the result its name and says nothing
/// else of it. The pattern has to be one that `Regex::new` accepts, which
/// the word boundary pattern is.
#[verifier::external_body]
fn match_starts(pattern: &str, text: &str) -> (starts: Vec<usize>)
    requires
        pattern@ == WORD_BOUNDARY@,
    ensures
        starts@ == regex_match_starts(pattern@, text@),
{
    Regex::new(pattern).unwrap().find_iter(text).map(|found| found.start()).collect()
}

/// The byte offsets of the word boundaries of `text`.
pub open spec fn word_boundary_offsets(text: Seq<char>) -> Seq<usize> {
    regex_match_starts(WORD_BOUNDARY@, text)
}

/// The word boundary index of `text`: one entry for every byte offset from 0
/// to the length of the text in bytes, true where a word boundary is.
pub open spec fn boundary_table(text: Seq<char>) -> Seq<bool> {
    Seq::new(
        encode_utf8(text).len() + 1,
        |at: int| word_boundary_offsets(text).contains(at as usize),
    )
}

/// Builds the word boundary index of `text`.
pub fn word_boundaries(text: &str) -> (table: Vec<bool>)
    ensures
        table@ == boundary_table(text@),
{
    let starts = match_starts(WORD_BOUNDARY, text);
    let bytes = text.as_bytes();
    let mut table: Vec<bool> = vec![false; bytes.len()];
    table.push(false);
    let mut i: usize = 0;
    while i < starts.len()
        invariant
            0 <= i <= starts.len(),
            starts@ == word_boundary_offsets(text@),
            table.len() == encode_utf8(text@).len() + 1,
            forall|at: int|
                0 <= at < table.len() ==> table[at] == starts@.take(i as int).contains(
                    at as usize,
                ),
        decreases starts.len() - i,
    {
        let at = starts[i];
        // An offset past the end of the text has no entry to mark.
        if at < table.len() {
            table.set(at, true);
        }
        proof {
            let before = starts@.take(i as int);
            let now = starts@.take(i + 1);
            assert(now =~= before.push(at));
            assert forall|k: int| 0 <= k < table.len() implies table[k] == now.contains(
                k as usize,
            ) by {
                if k as usize == at {
                    assert(now[i as int] == at);
                } else if before.contains(k as usize) {
                    let j = choose|j: int| 0 <= j < before.len() && before[j] == k as usize;
                    assert(now[j] == k as usize);
                } else if now.contains(k as usize) {
                    let j = choose|j: int| 0 <= j < now.len() && now[j] == k as usize;
                    assert(j < i);
                    assert(before[j] == k as usize);
                }
            }
        }
        i += 1;
    }
    assert(starts@.take(starts.len() as int) =~= starts@);
    assert(table@ =~= boundary_table(text@));
    table
}

} // verus!
