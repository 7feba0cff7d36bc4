//! What holds of every search, proved over the model of `text` and `search`.

use vstd::prelude::*;
use crate::fold::folded;
use crate::search::{containing, matching, matching_folded};
use crate::text::{
    after_first_line, first_line, lemma_line_end_bounds, line_end, lines_of, occurs_at, occurs_in,
    LINE_FEED,
};

verus! {

/// Each line of a text is a contiguous part of it and holds no line feed.
pub proof fn lemma_lines_are_parts(text: Seq<u8>)
    ensures
        forall|j: int|
            0 <= j < lines_of(text).len() ==> occurs_in(#[trigger] lines_of(text)[j], text),
        forall|j: int, i: int|
            0 <= j < lines_of(text).len() && 0 <= i < lines_of(text)[j].len() ==> (
            #[trigger] lines_of(text)[j][i]) != LINE_FEED,
    decreases text.len(),
{
    if text.len() > 0 {
        lemma_line_end_bounds(text);
        let end = line_end(text);
        let first = first_line(text);
        let rest = after_first_line(text);
        let lines = lines_of(text);
        lemma_lines_are_parts(rest);
        assert(lines =~= seq![first] + lines_of(rest));
        assert forall|j: int| 0 <= j < lines.len() implies occurs_in(#[trigger] lines[j], text) by {
            if j == 0 {
                assert(text.subrange(0, first.len() as int) =~= first);
                assert(occurs_at(first, text, 0));
            } else {
                let line = lines_of(rest)[j - 1];
                assert(lines[j] == line);
                assert(occurs_in(line, rest));
                let at = choose|at: int| occurs_at(line, rest, at);
                assert(text.subrange(at + end + 1, at + end + 1 + line.len()) =~= rest.subrange(
                    at,
                    at + line.len(),
                ));
                assert(occurs_at(line, text, at + end + 1));
            }
        }
        assert forall|j: int, i: int|
            0 <= j < lines.len() && 0 <= i < lines[j].len() implies (#[trigger] lines[j][i])
            != LINE_FEED by {
            if j == 0 {
                assert(first[i] == text[i]);
            } else {
                assert(lines[j] == lines_of(rest)[j - 1]);
            }
        }
    }
}

/// The positions, in rising order, of the lines that pass `wanted`.
pub open spec fn positions(lines: Seq<Seq<u8>>, wanted: spec_fn(Seq<u8>) -> bool) -> Seq<int>
    decreases lines.len(),
{
    if lines.len() == 0 {
        Seq::empty()
    } else if wanted(lines.last()) {
        positions(lines.drop_last(), wanted).push(lines.len() - 1)
    } else {
        positions(lines.drop_last(), wanted)
    }
}

/// `kept` holds exactly the lines of `lines` that pass `wanted`, each once
/// and in the order of `lines`: its entries are the lines at the positions
/// `at`, which rise strictly, pass `wanted`, and leave out no line that does.
pub open spec fn selects(
    kept: Seq<Seq<u8>>,
    at: Seq<int>,
    lines: Seq<Seq<u8>>,
    wanted: spec_fn(Seq<u8>) -> bool,
) -> bool {
    &&& kept.len() == at.len()
    &&& forall|k: int|
        0 <= k < at.len() ==> 0 <= #[trigger] at[k] < lines.len() && kept[k] == lines[at[k]]
            && wanted(lines[at[k]])
    &&& forall|k: int, l: int| 0 <= k < l < at.len() ==> #[trigger] at[k] < #[trigger] at[l]
    &&& forall|j: int|
        0 <= j < lines.len() && wanted(#[trigger] lines[j]) ==> exists|k: int|
            0 <= k < at.len() && #[trigger] at[k] == j
}

/// A filter keeps exactly the lines that pass, each once and in order.
pub proof fn lemma_filter_selects(lines: Seq<Seq<u8>>, wanted: spec_fn(Seq<u8>) -> bool)
    ensures
        selects(lines.filter(wanted), positions(lines, wanted), lines, wanted),
    decreases lines.len(),
{
    reveal(Seq::filter);
    if lines.len() > 0 {
        let before = lines.drop_last();
        lemma_filter_selects(before, wanted);
        let kept = lines.filter(wanted);
        let at = positions(lines, wanted);
        let at_before = positions(before, wanted);
        assert forall|j: int| 0 <= j < lines.len() && wanted(#[trigger] lines[j]) implies exists|
            k: int,
        | 0 <= k < at.len() && #[trigger] at[k] == j by {
            if j < lines.len() - 1 {
                assert(wanted(before[j]));
                let k = choose|k: int| 0 <= k < at_before.len() && #[trigger] at_before[k] == j;
                assert(at[k] == j);
            } else {
                assert(at[at.len() - 1] == j);
            }
        }
        assert forall|k: int| 0 <= k < at.len() implies 0 <= #[trigger] at[k] < lines.len()
            && kept[k] == lines[at[k]] && wanted(lines[at[k]]) by {
            if k < at_before.len() {
                assert(at[k] == at_before[k]);
                assert(before[at_before[k]] == lines[at_before[k]]);
            }
        }
        assert forall|k: int, l: int| 0 <= k < l < at.len() implies #[trigger] at[k]
            < #[trigger] at[l] by {
            assert(at[k] == at_before[k]);
            if l < at_before.len() {
                assert(at[l] == at_before[l]);
            }
        }
    }
}

/// Every line that an exact search returns contains the query, and every
/// line of the text that contains the query is returned, once, in the order
/// of the text.
pub proof fn lemma_search_exact(query: Seq<u8>, text: Seq<u8>)
    ensures
        selects(
            matching(query, text),
            positions(lines_of(text), containing(query, false)),
            lines_of(text),
            containing(query, false),
        ),
        forall|k: int|
            0 <= k < matching(query, text).len() ==> occurs_in(
                query,
                #[trigger] matching(query, text)[k],
            ),
{
    let wanted = containing(query, false);
    lemma_filter_selects(lines_of(text), wanted);
    let at = positions(lines_of(text), wanted);
    assert forall|k: int| 0 <= k < matching(query, text).len() implies occurs_in(
        query,
        #[trigger] matching(query, text)[k],
    ) by {
        assert(wanted(lines_of(text)[at[k]]));
    }
}

/// Every line that a folded search returns contains the folded query once
/// it is folded itself, and every line of the text of which that holds is
/// returned, once, in the order of the text.
pub proof fn lemma_search_folded_exact(query: Seq<u8>, text: Seq<u8>)
    ensures
        selects(
            matching_folded(query, text),
            positions(lines_of(text), containing(folded(query), true)),
            lines_of(text),
            containing(folded(query), true),
        ),
        forall|k: int|
            0 <= k < matching_folded(query, text).len() ==> occurs_in(
                folded(query),
                folded(#[trigger] matching_folded(query, text)[k]),
            ),
{
    let wanted = containing(folded(query), true);
    lemma_filter_selects(lines_of(text), wanted);
    let at = positions(lines_of(text), wanted);
    assert forall|k: int| 0 <= k < matching_folded(query, text).len() implies occurs_in(
        folded(query),
        folded(#[trigger] matching_folded(query, text)[k]),
    ) by {
        assert(wanted(lines_of(text)[at[k]]));
    }
}

/// Where every line passes, the filter keeps them all.
pub proof fn lemma_filter_all(lines: Seq<Seq<u8>>, wanted: spec_fn(Seq<u8>) -> bool)
    requires
        forall|j: int| 0 <= j < lines.len() ==> wanted(#[trigger] lines[j]),
    ensures
        lines.filter(wanted) == lines,
    decreases lines.len(),
{
    reveal(Seq::filter);
    if lines.len() > 0 {
        let before = lines.drop_last();
        assert forall|j: int| 0 <= j < before.len() implies wanted(#[trigger] before[j]) by {
            assert(before[j] == lines[j]);
        }
        lemma_filter_all(before, wanted);
        assert(wanted(lines.last()));
        assert(before.push(lines.last()) =~= lines);
    } else {
        assert(lines.filter(wanted) =~= lines);
    }
}

/// The empty query occurs in every line.
pub proof fn lemma_empty_occurs(line: Seq<u8>)
    ensures
        occurs_in(Seq::empty(), line),
{
    assert(line.subrange(0, 0) =~= Seq::<u8>::empty());
    assert(occurs_at(Seq::empty(), line, 0));
}

/// A search for the empty query returns every line of the text, under
/// either policy.
pub proof fn lemma_empty_query_matches_all(text: Seq<u8>)
    ensures
        matching(Seq::empty(), text) == lines_of(text),
        matching_folded(Seq::empty(), text) == lines_of(text),
{
    let lines = lines_of(text);
    let exact = containing(Seq::empty(), false);
    let fold = containing(folded(Seq::empty()), true);
    assert forall|j: int| 0 <= j < lines.len() implies exact(#[trigger] lines[j]) && fold(
        lines[j],
    ) by {
        lemma_empty_occurs(lines[j]);
        lemma_empty_occurs(folded(lines[j]));
    }
    lemma_filter_all(lines, exact);
    lemma_filter_all(lines, fold);
}

/// In the empty text no search finds a line, whatever the query.
pub proof fn lemma_empty_text_matches_nothing(query: Seq<u8>)
    ensures
        matching(query, Seq::empty()) == Seq::<Seq<u8>>::empty(),
        matching_folded(query, Seq::empty()) == Seq::<Seq<u8>>::empty(),
{
    reveal(Seq::filter);
    assert(lines_of(Seq::empty()) =~= Seq::<Seq<u8>>::empty());
}

/// A folded search depends on the query only through its lowercase form:
/// two queries that fold to the same text, such as a lowercase query and any
/// case variant of it, find the same lines.
pub proof fn lemma_folded_search_ignores_query_case(first: Seq<u8>, second: Seq<u8>, text: Seq<u8>)
    requires
        folded(first) == folded(second),
    ensures
        matching_folded(first, text) == matching_folded(second, text),
{
}

/// Where every line that passes `narrow` also passes `wide`, the lines kept
/// by `narrow` are those kept by `wide` that pass `narrow`, and no more in
/// number than those kept by `wide`.
pub proof fn lemma_filter_narrower(
    lines: Seq<Seq<u8>>,
    narrow: spec_fn(Seq<u8>) -> bool,
    wide: spec_fn(Seq<u8>) -> bool,
)
    requires
        forall|j: int| 0 <= j < lines.len() && narrow(#[trigger] lines[j]) ==> wide(lines[j]),
    ensures
        lines.filter(narrow) == lines.filter(wide).filter(narrow),
        lines.filter(narrow).len() <= lines.filter(wide).len(),
    decreases lines.len(),
{
    reveal(Seq::filter);
    if lines.len() > 0 {
        let before = lines.drop_last();
        assert forall|j: int| 0 <= j < before.len() && narrow(#[trigger] before[j]) implies wide(
            before[j],
        ) by {
            assert(before[j] == lines[j]);
        }
        lemma_filter_narrower(before, narrow, wide);
        if wide(lines.last()) {
            let kept = before.filter(wide).push(lines.last());
            assert(kept.drop_last() =~= before.filter(wide));
        } else {
            assert(!narrow(lines[lines.len() - 1]));
        }
    }
}

/// Where folding loses no match, that is where each line that contains the
/// query still contains it after both are folded, the folded search returns
/// every line that the exact search returns, in the same order, and so no
/// fewer lines.
pub proof fn lemma_folded_search_finds_no_less(query: Seq<u8>, text: Seq<u8>)
    requires
        forall|j: int|
            0 <= j < lines_of(text).len() && occurs_in(query, #[trigger] lines_of(text)[j])
                ==> occurs_in(folded(query), folded(lines_of(text)[j])),
    ensures
        matching(query, text) == matching_folded(query, text).filter(containing(query, false)),
        matching(query, text).len() <= matching_folded(query, text).len(),
{
    lemma_filter_narrower(
        lines_of(text),
        containing(query, false),
        containing(folded(query), true),
    );
}

} // verus!
