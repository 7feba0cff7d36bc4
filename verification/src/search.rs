//! The search itself: the lines of a buffer that contain a query.

use vstd::prelude::*;
use vstd::string::*;
use vstd::utf8::*;
use crate::fold::{folded, lowercased};
use crate::text::{
    after_first_line, contains_bytes, first_line, lemma_line_end_bounds, lines_of, occurs_in,
    split_first_line,
};
use crate::theorems::{lemma_empty_query_matches_all, lemma_empty_text_matches_nothing};

verus! {

/// The test that one search applies to each line: `needle` occurs in the
/// line as it stands, or, with `fold`, in the line folded to lowercase.
pub open spec fn containing(needle: Seq<u8>, fold: bool) -> spec_fn(Seq<u8>) -> bool {
    |line: Seq<u8>|
        occurs_in(
            needle,
            if fold {
                folded(line)
            } else {
                line
            },
        )
}

/// The lines of `text` that contain `query` byte for byte, in the order in
/// which they stand in `text`.
pub open spec fn matching(query: Seq<u8>, text: Seq<u8>) -> Seq<Seq<u8>> {
    lines_of(text).filter(containing(query, false))
}

/// The lines of `text` whose lowercase form contains the lowercase form of
/// `query`, in the order in which they stand in `text`. The lines themselves
/// are not folded.
pub open spec fn matching_folded(query: Seq<u8>, text: Seq<u8>) -> Seq<Seq<u8>> {
    lines_of(text).filter(containing(folded(query), true))
}

/// The bytes of each string of `found`.
pub open spec fn texts(found: Seq<&str>) -> Seq<Seq<u8>> {
    Seq::new(found.len(), |i: int| found[i].spec_bytes())
}

/// Whether `needle` occurs in `line`, or with `fold` in its lowercase form.
fn line_contains(needle: &[u8], line: &str, fold: bool) -> (hit: bool)
    ensures
        hit == containing(needle@, fold)(line.spec_bytes()),
{
    broadcast use group_utf8_lib;

    if fold {
        let lowered = lowercased(line);
        contains_bytes(lowered.as_str().as_bytes(), needle)
    } else {
        contains_bytes(line.as_bytes(), needle)
    }
}

/// Walks `contents` line by line and keeps, in order, the lines that
/// `needle` occurs in: in the line as it stands, or with `fold` in the line
/// folded to lowercase. `needle` is taken as given, folded or not. Each line
/// kept is a view into `contents`, without its line ending.
pub fn lines_containing<'a>(needle: &[u8], contents: &'a str, fold: bool) -> (found: Vec<&'a str>)
    ensures
        texts(found@) == lines_of(contents.spec_bytes()).filter(containing(needle@, fold)),
{
    let ghost wanted = containing(needle@, fold);
    let ghost mut seen: Seq<Seq<u8>> = Seq::empty();
    let mut found: Vec<&'a str> = Vec::new();
    let mut rest: &'a str = contents;
    proof {
        reveal(Seq::filter);
        assert(seen + lines_of(rest.spec_bytes()) =~= lines_of(contents.spec_bytes()));
        assert(texts(found@) =~= seen.filter(wanted));
    }
    while rest.as_bytes().len() > 0
        invariant
            wanted == containing(needle@, fold),
            lines_of(contents.spec_bytes()) == seen + lines_of(rest.spec_bytes()),
            texts(found@) == seen.filter(wanted),
        decreases rest.spec_bytes().len(),
    {
        let (line, tail) = split_first_line(rest);
        let hit = line_contains(needle, line, fold);
        let ghost kept = found@;
        if hit {
            found.push(line);
        }
        proof {
            let bytes = rest.spec_bytes();
            let next = seen.push(first_line(bytes));
            lemma_line_end_bounds(bytes);
            assert(seen + (seq![first_line(bytes)] + lines_of(after_first_line(bytes))) =~= next
                + lines_of(tail.spec_bytes()));
            reveal(Seq::filter);
            assert(next.drop_last() =~= seen);
            if hit {
                assert(texts(found@) =~= texts(kept).push(line.spec_bytes()));
            }
            seen = next;
        }
        rest = tail;
    }
    proof {
        assert(seen + lines_of(rest.spec_bytes()) =~= seen);
    }
    found
}

/// The lines of `contents` that contain `query`, compared byte for byte, in
/// the order in which they stand in `contents`. Each line is a view into
/// `contents`, without its line ending. The empty query finds every line,
/// and nothing is found in the empty buffer.
pub fn search<'a>(query: &str, contents: &'a str) -> (found: Vec<&'a str>)
    ensures
        texts(found@) == matching(query.spec_bytes(), contents.spec_bytes()),
        query@.len() == 0 ==> texts(found@) == lines_of(contents.spec_bytes()),
        contents@.len() == 0 ==> found@.len() == 0,
{
    let found = lines_containing(query.as_bytes(), contents, false);
    proof {
        if query@.len() == 0 {
            assert(query.spec_bytes() =~= Seq::<u8>::empty());
            lemma_empty_query_matches_all(contents.spec_bytes());
        }
        if contents@.len() == 0 {
            assert(contents.spec_bytes() =~= Seq::<u8>::empty());
            lemma_empty_text_matches_nothing(query.spec_bytes());
            assert(texts(found@).len() == found@.len());
        }
    }
    found
}

/// The lines of `contents` that contain `query` once both the line and the
/// query are folded to lowercase, in the order in which they stand in
/// `contents`. Each line is a view into `contents`, in its own case. The
/// empty query finds every line, and nothing is found in the empty buffer.
pub fn search_case_insensitive<'a>(query: &str, contents: &'a str) -> (found: Vec<&'a str>)
    ensures
        texts(found@) == matching_folded(query.spec_bytes(), contents.spec_bytes()),
        query@.len() == 0 ==> texts(found@) == lines_of(contents.spec_bytes()),
        contents@.len() == 0 ==> found@.len() == 0,
{
    broadcast use group_utf8_lib;

    let lowered = lowercased(query);
    let found = lines_containing(lowered.as_str().as_bytes(), contents, true);
    proof {
        if query@.len() == 0 {
            assert(query.spec_bytes() =~= Seq::<u8>::empty());
            lemma_empty_query_matches_all(contents.spec_bytes());
        }
        if contents@.len() == 0 {
            assert(contents.spec_bytes() =~= Seq::<u8>::empty());
            lemma_empty_text_matches_nothing(query.spec_bytes());
            assert(texts(found@).len() == found@.len());
        }
    }
    found
}

/// Searches under the given policy: byte for byte where `case_sensitive`
/// holds, after folding to lowercase where it does not.
pub fn search_with<'a>(query: &str, contents: &'a str, case_sensitive: bool) -> (found: Vec<
    &'a str,
>)
    ensures
        texts(found@) == if case_sensitive {
            matching(query.spec_bytes(), contents.spec_bytes())
        } else {
            matching_folded(query.spec_bytes(), contents.spec_bytes())
        },
        query@.len() == 0 ==> texts(found@) == lines_of(contents.spec_bytes()),
        contents@.len() == 0 ==> found@.len() == 0,
{
    if case_sensitive {
        search(query, contents)
    } else {
        search_case_insensitive(query, contents)
    }
}

} // verus!
