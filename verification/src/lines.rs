//! The line splitter: the lines of a text and where each of them starts.
//!
//! A line ends at a line feed; a carriage return directly before the line
//! feed belongs to the line ending too. The last line needs no line ending,
//! and a line ending at the very end of the text starts no further line.

use vstd::prelude::*;
use vstd::string::*;
use vstd::utf8::{
    decode_utf8, encode_utf8, is_char_boundary, is_continuation_byte, length_of_first_scalar,
    pop_first_scalar, valid_utf8,
};

verus! {

pub const LINE_FEED: u8 = 0x0A;

pub const CARRIAGE_RETURN: u8 = 0x0D;

/// The position of the first line feed from `from` on; the length of `bytes`
/// if there is none.
pub open spec fn next_line_feed(bytes: Seq<u8>, from: int) -> int
    decreases bytes.len() - from,
{
    if from >= bytes.len() {
        bytes.len() as int
    } else if bytes[from] == LINE_FEED {
        from
    } else {
        next_line_feed(bytes, from + 1)
    }
}

/// Where the line that starts at `from` ends: before its line ending, or at
/// the end of the text.
pub open spec fn line_end(bytes: Seq<u8>, from: int) -> int {
    let feed = next_line_feed(bytes, from);
    if feed < bytes.len() && from < feed && bytes[feed - 1] == CARRIAGE_RETURN {
        feed - 1
    } else {
        feed
    }
}

/// Where the text goes on behind the line that starts at `from`: behind its
/// line feed, or at the end of the text.
pub open spec fn line_rest(bytes: Seq<u8>, from: int) -> int {
    let feed = next_line_feed(bytes, from);
    if feed < bytes.len() {
        feed + 1
    } else {
        feed
    }
}

/// The lines of `bytes` from `from` on, each as the byte offsets of its start
/// and its end.
pub open spec fn line_ranges_from(bytes: Seq<u8>, from: int) -> Seq<(int, int)>
    decreases bytes.len() - from,
    via line_ranges_from_ends
{
    if from < 0 || from >= bytes.len() {
        Seq::empty()
    } else {
        seq![(from, line_end(bytes, from))] + line_ranges_from(bytes, line_rest(bytes, from))
    }
}

/// The lines of `bytes`.
pub open spec fn line_ranges(bytes: Seq<u8>) -> Seq<(int, int)> {
    line_ranges_from(bytes, 0)
}

/// The characters of the line that lies at `range` in `bytes`.
pub open spec fn line_text(bytes: Seq<u8>, range: (int, int)) -> Seq<char> {
    decode_utf8(bytes.subrange(range.0, range.1))
}

/// The next line feed lies between `from` and the end, and no line feed lies
/// before it.
pub proof fn lemma_next_line_feed(bytes: Seq<u8>, from: int)
    requires
        0 <= from <= bytes.len(),
    ensures
        from <= next_line_feed(bytes, from) <= bytes.len(),
        next_line_feed(bytes, from) < bytes.len() ==> bytes[next_line_feed(bytes, from)]
            == LINE_FEED,
        forall|at: int| from <= at < next_line_feed(bytes, from) ==> bytes[at] != LINE_FEED,
    decreases bytes.len() - from,
{
    if from < bytes.len() && bytes[from] != LINE_FEED {
        lemma_next_line_feed(bytes, from + 1);
    }
}

#[via_fn]
proof fn line_ranges_from_ends(bytes: Seq<u8>, from: int) {
    if 0 <= from < bytes.len() {
        lemma_next_line_feed(bytes, from);
    }
}

/// The lines from `from` on lie behind `from` and within the text, in order
/// and apart: each line starts behind the end of the line before it.
pub proof fn lemma_line_ranges_from(bytes: Seq<u8>, from: int)
    requires
        0 <= from <= bytes.len(),
    ensures
        forall|i: int|
            0 <= i < line_ranges_from(bytes, from).len() ==> from <= (#[trigger] line_ranges_from(
                bytes,
                from,
            )[i]).0 <= line_ranges_from(bytes, from)[i].1 <= bytes.len(),
        forall|i: int, j: int|
            0 <= i < j < line_ranges_from(bytes, from).len() ==> (#[trigger] line_ranges_from(
                bytes,
                from,
            )[i]).1 < (#[trigger] line_ranges_from(bytes, from)[j]).0,
        line_ranges_from(bytes, from).len() > 0 ==> line_ranges_from(bytes, from)[0].0 == from,
    decreases bytes.len() - from,
{
    if from < bytes.len() {
        lemma_next_line_feed(bytes, from);
        let rest = line_rest(bytes, from);
        lemma_line_ranges_from(bytes, rest);
        let first = (from, line_end(bytes, from));
        let others = line_ranges_from(bytes, rest);
        let all = line_ranges_from(bytes, from);
        assert(all =~= seq![first] + others);
        assert forall|i: int| 0 <= i < all.len() implies from <= (#[trigger] all[i]).0 <= all[i].1
            <= bytes.len() by {
            if i > 0 {
                assert(all[i] == others[i - 1]);
            }
        }
        assert forall|i: int, j: int| 0 <= i < j < all.len() implies (#[trigger] all[i]).1 < (
        #[trigger] all[j]).0 by {
            assert(all[j] == others[j - 1]);
            if i > 0 {
                assert(all[i] == others[i - 1]);
            }
        }
    }
}

/// The lines of a text lie within the text, in order and apart. The first
/// line starts at the start of the text.
pub proof fn lemma_line_ranges(bytes: Seq<u8>)
    ensures
        forall|i: int|
            0 <= i < line_ranges(bytes).len() ==> 0 <= (#[trigger] line_ranges(bytes)[i]).0
                <= line_ranges(bytes)[i].1 <= bytes.len(),
        forall|i: int, j: int|
            0 <= i < j < line_ranges(bytes).len() ==> (#[trigger] line_ranges(bytes)[i]).1 < (
            #[trigger] line_ranges(bytes)[j]).0,
        line_ranges(bytes).len() > 0 ==> line_ranges(bytes)[0].0 == 0,
{
    lemma_line_ranges_from(bytes, 0);
}

/// In valid UTF-8 a byte below 0x80 is a character of its own: a character
/// starts at it and the next one starts right behind it.
pub proof fn lemma_ascii_is_char(bytes: Seq<u8>, at: int)
    requires
        valid_utf8(bytes),
        0 <= at < bytes.len(),
        bytes[at] < 0x80,
    ensures
        is_char_boundary(bytes, at),
        is_char_boundary(bytes, at + 1),
    decreases bytes.len(),
{
    let first = length_of_first_scalar(bytes);
    if at == 0 {
        assert(first == 1);
        assert(is_char_boundary(pop_first_scalar(bytes), 0));
    } else {
        assert(first <= at) by {
            if at < first {
                assert(is_continuation_byte(bytes[at]));
            }
        }
        let rest = pop_first_scalar(bytes);
        assert(rest[at - first] == bytes[at]);
        lemma_ascii_is_char(rest, at - first);
    }
}

/// A character boundary of a text is one of every prefix that reaches it.
proof fn lemma_boundary_in_prefix(bytes: Seq<u8>, at: int, end: int)
    requires
        valid_utf8(bytes),
        0 <= at <= end <= bytes.len(),
        is_char_boundary(bytes, at),
        is_char_boundary(bytes, end),
    ensures
        valid_utf8(bytes.subrange(0, end)),
        is_char_boundary(bytes.subrange(0, end), at),
{
    let head = bytes.subrange(0, end);
    vstd::utf8::valid_utf8_split(bytes, end);
    if at == end {
        vstd::utf8::is_char_boundary_start_end_of_seq(head);
    } else {
        vstd::utf8::is_char_boundary_iff_not_is_continuation_byte(bytes, at);
        vstd::utf8::is_char_boundary_iff_not_is_continuation_byte(head, at);
    }
}

/// The part of `text` between two character boundaries.
fn part_of<'a>(text: &'a str, start: usize, end: usize) -> (part: &'a str)
    requires
        start <= end <= encode_utf8(text@).len(),
        is_char_boundary(encode_utf8(text@), start as int),
        is_char_boundary(encode_utf8(text@), end as int),
    ensures
        encode_utf8(part@) == encode_utf8(text@).subrange(start as int, end as int),
        part@ == line_text(encode_utf8(text@), (start as int, end as int)),
{
    proof {
        vstd::utf8::encode_utf8_valid_utf8(text@);
        lemma_boundary_in_prefix(encode_utf8(text@), start as int, end as int);
    }
    let (head, _) = text.split_at(end);
    let (_, part) = head.split_at(start);
    proof {
        assert(encode_utf8(part@) =~= encode_utf8(text@).subrange(start as int, end as int));
        vstd::utf8::encode_utf8_decode_utf8(part@);
    }
    part
}

/// What [`split_lines`] returns for the lines in `ranges`: of each line the
/// byte offset of its start and its characters.
pub open spec fn lines_match(
    bytes: Seq<u8>,
    ranges: Seq<(int, int)>,
    lines: Seq<(usize, &str)>,
) -> bool {
    &&& lines.len() == ranges.len()
    &&& forall|i: int|
        0 <= i < lines.len() ==> {
            &&& (#[trigger] lines[i]).0 == ranges[i].0
            &&& lines[i].1@ == line_text(bytes, ranges[i])
            &&& encode_utf8(lines[i].1@).len() == ranges[i].1 - ranges[i].0
        }
}

/// Splits `text` into its lines. Each line comes with the byte offset in
/// `text` at which it starts.
pub fn split_lines<'a>(text: &'a str) -> (lines: Vec<(usize, &'a str)>)
    ensures
        lines_match(encode_utf8(text@), line_ranges(encode_utf8(text@)), lines@),
{
    let bytes = text.as_bytes();
    let ghost all = encode_utf8(text@);
    let mut lines: Vec<(usize, &'a str)> = Vec::new();
    let ghost mut ranges: Seq<(int, int)> = Seq::empty();
    let mut from: usize = 0;
    proof {
        vstd::utf8::encode_utf8_valid_utf8(text@);
        vstd::utf8::is_char_boundary_start_end_of_seq(all);
    }
    while from < bytes.len()
        invariant
            bytes@ == all,
            all == encode_utf8(text@),
            valid_utf8(all),
            0 <= from <= all.len(),
            is_char_boundary(all, from as int),
            line_ranges(all) == ranges + line_ranges_from(all, from as int),
            lines_match(all, ranges, lines@),
        decreases all.len() - from,
    {
        let mut feed = from;
        while feed < bytes.len() && bytes[feed] != LINE_FEED
            invariant
                bytes@ == all,
                from <= feed <= all.len(),
                next_line_feed(all, feed as int) == next_line_feed(all, from as int),
            decreases all.len() - feed,
        {
            feed += 1;
        }
        let end = if feed < bytes.len() && from < feed && bytes[feed - 1] == CARRIAGE_RETURN {
            feed - 1
        } else {
            feed
        };
        let rest = if feed < bytes.len() {
            feed + 1
        } else {
            feed
        };
        proof {
            if end < all.len() {
                lemma_ascii_is_char(all, end as int);
            } else {
                vstd::utf8::is_char_boundary_start_end_of_seq(all);
            }
            if feed < all.len() {
                lemma_ascii_is_char(all, feed as int);
            } else {
                vstd::utf8::is_char_boundary_start_end_of_seq(all);
            }
        }
        let line = part_of(text, from, end);
        proof {
            let range = (from as int, end as int);
            assert(range == (from as int, line_end(all, from as int)));
            assert(rest == line_rest(all, from as int));
            assert(ranges + line_ranges_from(all, from as int) =~= ranges.push(range)
                + line_ranges_from(all, rest as int));
            ranges = ranges.push(range);
        }
        lines.push((from, line));
        from = rest;
    }
    proof {
        assert(ranges + line_ranges_from(all, from as int) =~= ranges);
    }
    lines
}

} // verus!
