//! Lines and substrings of a text buffer, over its bytes.

use vstd::prelude::*;
use vstd::string::*;
use vstd::utf8::*;

verus! {

/// The byte that ends a line.
pub const LINE_FEED: u8 = 10;

/// The byte that, directly before a line feed, belongs to the line ending.
pub const CARRIAGE_RETURN: u8 = 13;

/// Index of the first line feed in `text`, or `text.len()` where it has none.
pub open spec fn line_end(text: Seq<u8>) -> int
    decreases text.len(),
{
    if text.len() == 0 || text[0] == LINE_FEED {
        0
    } else {
        1 + line_end(text.drop_first())
    }
}

/// The first line of `text`, without its line ending: the bytes before the
/// first line feed, less one carriage return directly before that line feed.
/// A last line that no line feed ends is taken whole.
pub open spec fn first_line(text: Seq<u8>) -> Seq<u8> {
    let end = line_end(text);
    if 0 < end < text.len() && text[end - 1] == CARRIAGE_RETURN {
        text.subrange(0, end - 1)
    } else {
        text.subrange(0, end)
    }
}

/// What follows the first line of `text` and its line ending.
pub open spec fn after_first_line(text: Seq<u8>) -> Seq<u8> {
    let end = line_end(text);
    if end < text.len() {
        text.subrange(end + 1, text.len() as int)
    } else {
        Seq::empty()
    }
}

/// The lines of `text`, in order. An empty text has no line, and a line feed
/// at the very end opens no further line.
pub open spec fn lines_of(text: Seq<u8>) -> Seq<Seq<u8>>
    decreases text.len(),
    when text.len() >= 0
    via lines_of_decreases
{
    if text.len() == 0 {
        Seq::empty()
    } else {
        seq![first_line(text)] + lines_of(after_first_line(text))
    }
}

#[via_fn]
proof fn lines_of_decreases(text: Seq<u8>) {
    lemma_line_end_bounds(text);
}

/// `needle` stands in `hay` at offset `at`.
pub open spec fn occurs_at(needle: Seq<u8>, hay: Seq<u8>, at: int) -> bool {
    &&& 0 <= at
    &&& at + needle.len() <= hay.len()
    &&& hay.subrange(at, at + needle.len()) == needle
}

/// `needle` is a contiguous part of `hay`.
pub open spec fn occurs_in(needle: Seq<u8>, hay: Seq<u8>) -> bool {
    exists|at: int| occurs_at(needle, hay, at)
}

/// `line_end` lies within the text, no line feed comes before it, and one
/// stands at it unless it is the text's end.
pub proof fn lemma_line_end_bounds(text: Seq<u8>)
    ensures
        0 <= line_end(text) <= text.len(),
        forall|j: int| 0 <= j < line_end(text) ==> text[j] != LINE_FEED,
        line_end(text) < text.len() ==> text[line_end(text)] == LINE_FEED,
    decreases text.len(),
{
    if text.len() == 0 || text[0] == LINE_FEED {
    } else {
        let rest = text.drop_first();
        lemma_line_end_bounds(rest);
        assert forall|j: int| 0 <= j < line_end(text) implies text[j] != LINE_FEED by {
            if j > 0 {
                assert(text[j] == rest[j - 1]);
            }
        }
        if line_end(text) < text.len() {
            assert(text[line_end(text)] == rest[line_end(rest)]);
        }
    }
}

/// An index with no line feed before it, and with a line feed at it or the
/// text's end, is `line_end`.
pub proof fn lemma_line_end_unique(text: Seq<u8>, end: int)
    requires
        0 <= end <= text.len(),
        forall|j: int| 0 <= j < end ==> text[j] != LINE_FEED,
        end < text.len() ==> text[end] == LINE_FEED,
    ensures
        line_end(text) == end,
{
    lemma_line_end_bounds(text);
    let found = line_end(text);
    if found < end {
        assert(text[found] == LINE_FEED);
    } else if end < found {
        assert(text[end] != LINE_FEED);
    }
}

/// Whether `needle` stands in `hay` at offset `at`.
pub fn occurs_at_offset(needle: &[u8], hay: &[u8], at: usize) -> (held: bool)
    requires
        at + needle@.len() <= hay@.len(),
    ensures
        held == occurs_at(needle@, hay@, at as int),
{
    let n: usize = hay.len();
    let m: usize = needle.len();
    let mut k: usize = 0;
    while k < m
        invariant
            n == hay@.len(),
            m == needle@.len(),
            at + m <= hay@.len(),
            k <= m,
            forall|j: int| 0 <= j < k ==> hay@[at + j] == needle@[j],
        decreases m - k,
    {
        if hay[at + k] != needle[k] {
            proof {
                let window = hay@.subrange(at as int, at + m);
                assert(window[k as int] == hay@[at + k]);
            }
            return false;
        }
        k += 1;
    }
    proof {
        assert(hay@.subrange(at as int, at + m) =~= needle@);
    }
    true
}

/// Whether `needle` is a contiguous part of `hay`. The empty needle is part
/// of every text.
pub fn contains_bytes(hay: &[u8], needle: &[u8]) -> (found: bool)
    ensures
        found == occurs_in(needle@, hay@),
{
    let n: usize = hay.len();
    let m: usize = needle.len();
    if m > n {
        return false;
    }
    let last: usize = n - m;
    let mut at: usize = 0;
    loop
        invariant
            n == hay@.len(),
            m == needle@.len(),
            last == n - m,
            at <= last,
            forall|s: int| 0 <= s < at ==> !occurs_at(needle@, hay@, s),
        decreases last - at,
    {
        if occurs_at_offset(needle, hay, at) {
            return true;
        }
        if at == last {
            return false;
        }
        at += 1;
    }
}

/// Cuts `text` after its first line: the line without its ending, and what
/// follows the ending. Both are views into `text`.
pub fn split_first_line<'a>(text: &'a str) -> (parts: (&'a str, &'a str))
    ensures
        parts.0.spec_bytes() == first_line(text.spec_bytes()),
        parts.1.spec_bytes() == after_first_line(text.spec_bytes()),
{
    broadcast use group_utf8_lib;

    let bytes = text.as_bytes();
    let n: usize = bytes.len();
    let mut end: usize = 0;
    while end < n && bytes[end] != LINE_FEED
        invariant
            n == bytes@.len(),
            end <= n,
            forall|j: int| 0 <= j < end ==> bytes@[j] != LINE_FEED,
        decreases n - end,
    {
        end += 1;
    }
    proof {
        lemma_line_end_unique(bytes@, end as int);
        if end < n {
            is_char_boundary_iff_not_is_continuation_byte(bytes@, end as int);
        }
    }
    if end == n {
        let (line, rest) = text.split_at(n);
        proof {
            assert(bytes@.subrange(0, n as int) =~= bytes@);
        }
        (line, rest)
    } else {
        let (head, tail) = text.split_at(end);
        proof {
            reveal_with_fuel(is_char_boundary, 2);
            reveal_with_fuel(valid_utf8, 2);
            assert(tail.spec_bytes()[0] == LINE_FEED);
        }
        let (_, rest) = tail.split_at(1);
        proof {
            assert(rest.spec_bytes() =~= bytes@.subrange(end + 1, n as int));
        }
        if end > 0 && bytes[end - 1] == CARRIAGE_RETURN {
            proof {
                assert(head.spec_bytes()[end - 1] == CARRIAGE_RETURN);
                is_char_boundary_iff_not_is_continuation_byte(head.spec_bytes(), end - 1);
            }
            let (line, _) = head.split_at(end - 1);
            proof {
                assert(line.spec_bytes() =~= bytes@.subrange(0, end - 1));
            }
            (line, rest)
        } else {
            (head, rest)
        }
    }
}

} // verus!
