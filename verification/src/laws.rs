//! What holds of every scan, whatever the query and the text.

use vstd::prelude::*;
use vstd::utf8::is_ascii_chars;
use crate::lines::{lemma_line_is_slice, line_start, lines_of};
use crate::matcher::{ascii_lowercase, fold_case, is_match, CasePolicy};
use crate::scanner::{is_scan_result, matching_lines, views};
use crate::substring::{occurs_at, occurs_in};

verus! {

/// `picked` is made of the elements that `all` holds at the positions `at`,
/// and those positions rise: `picked` keeps the order of `all`.
pub open spec fn is_selection<T>(picked: Seq<T>, all: Seq<T>, at: Seq<int>) -> bool {
    &&& at.len() == picked.len()
    &&& forall|i: int|
        0 <= i < at.len() ==> 0 <= #[trigger] at[i] < all.len() && picked[i] == all[at[i]]
    &&& forall|i: int, j: int| 0 <= i < j < at.len() ==> at[i] < at[j]
}

/// Filtering selects: the result holds the elements at rising positions of
/// the sequence, and those positions are the ones whose element is kept.
pub proof fn lemma_filter_selects<T>(all: Seq<T>, keep: spec_fn(T) -> bool) -> (at: Seq<int>)
    ensures
        is_selection(all.filter(keep), all, at),
        forall|j: int| 0 <= j < all.len() ==> (at.contains(j) <==> keep(all[j])),
    decreases all.len(),
{
    reveal(Seq::filter);
    if all.len() == 0 {
        Seq::empty()
    } else {
        let front = all.drop_last();
        let last = all.len() - 1;
        let front_at = lemma_filter_selects(front, keep);
        let at = if keep(all.last()) {
            front_at.push(last)
        } else {
            front_at
        };
        assert forall|j: int| 0 <= j < all.len() implies (at.contains(j) <==> keep(all[j])) by {
            if j < last {
                assert(front[j] == all[j]);
                if front_at.contains(j) {
                    let i = choose|i: int| 0 <= i < front_at.len() && front_at[i] == j;
                    assert(at[i] == j);
                }
                if at.contains(j) {
                    let i = choose|i: int| 0 <= i < at.len() && at[i] == j;
                    assert(front_at[i] == j);
                }
            } else {
                if keep(all[j]) {
                    assert(at[at.len() - 1] == j);
                }
                if at.contains(j) {
                    let i = choose|i: int| 0 <= i < at.len() && at[i] == j;
                    assert(i == front_at.len());
                }
            }
        }
        at
    }
}

/// The result of a scan is made of lines of the text, in the order in which
/// they stand there, and a line of the text is among them exactly when it
/// matches the query. Returns the positions of the result's lines among the
/// lines of the text.
pub proof fn lemma_scan_selects_the_matching_lines(
    query: Seq<char>,
    text: Seq<char>,
    policy: CasePolicy,
) -> (at: Seq<int>)
    ensures
        is_selection(matching_lines(query, text, policy), lines_of(text), at),
        forall|j: int|
            0 <= j < lines_of(text).len() ==> (at.contains(j) <==> is_match(
                query,
                lines_of(text)[j],
                policy,
            )),
        forall|i: int|
            0 <= i < matching_lines(query, text, policy).len() ==> is_match(
                query,
                #[trigger] matching_lines(query, text, policy)[i],
                policy,
            ),
{
    let keep = |line: Seq<char>| is_match(query, line, policy);
    let at = lemma_filter_selects(lines_of(text), keep);
    assert forall|i: int| 0 <= i < matching_lines(query, text, policy).len() implies is_match(
        query,
        #[trigger] matching_lines(query, text, policy)[i],
        policy,
    ) by {
        assert(at.contains(at[i]));
    }
    at
}

/// Every line that a case-sensitive scan returns holds the query letter for
/// letter.
pub proof fn lemma_sensitive_matches_hold_the_query(query: Seq<char>, text: Seq<char>, i: int)
    requires
        0 <= i < matching_lines(query, text, CasePolicy::Sensitive).len(),
    ensures
        occurs_in(matching_lines(query, text, CasePolicy::Sensitive)[i], query),
{
    lemma_scan_selects_the_matching_lines(query, text, CasePolicy::Sensitive);
}

/// Every line that a case-insensitive scan returns holds the query once both
/// are case-folded.
pub proof fn lemma_insensitive_matches_hold_the_folded_query(
    query: Seq<char>,
    text: Seq<char>,
    i: int,
)
    requires
        0 <= i < matching_lines(query, text, CasePolicy::Insensitive).len(),
    ensures
        occurs_in(
            fold_case(matching_lines(query, text, CasePolicy::Insensitive)[i]),
            fold_case(query),
        ),
{
    lemma_scan_selects_the_matching_lines(query, text, CasePolicy::Insensitive);
}

/// Filtering by a condition and then by a stronger one is filtering by the
/// stronger one.
pub proof fn lemma_filter_twice<T>(all: Seq<T>, weak: spec_fn(T) -> bool, strong: spec_fn(T) -> bool)
    requires
        forall|j: int| 0 <= j < all.len() && strong(all[j]) ==> weak(all[j]),
    ensures
        all.filter(weak).filter(strong) == all.filter(strong),
    decreases all.len(),
{
    reveal(Seq::filter);
    if all.len() > 0 {
        let front = all.drop_last();
        assert forall|j: int| 0 <= j < front.len() && strong(front[j]) implies weak(front[j]) by {
            assert(front[j] == all[j]);
        }
        lemma_filter_twice(front, weak, strong);
        if weak(all.last()) {
            front.filter(weak).lemma_filter_push(all.last(), strong);
        }
    }
}

/// Filtering by a condition that every element meets changes nothing.
pub proof fn lemma_filter_keeps_all<T>(all: Seq<T>, keep: spec_fn(T) -> bool)
    requires
        forall|j: int| 0 <= j < all.len() ==> keep(all[j]),
    ensures
        all.filter(keep) == all,
    decreases all.len(),
{
    reveal(Seq::filter);
    if all.len() > 0 {
        let front = all.drop_last();
        assert forall|j: int| 0 <= j < front.len() implies keep(front[j]) by {
            assert(front[j] == all[j]);
        }
        lemma_filter_keeps_all(front, keep);
        assert(front.push(all.last()) =~= all);
    }
}

/// Folding keeps `query` in `line`: where the line holds the query, the
/// folded line holds the folded query.
pub open spec fn folding_keeps(query: Seq<char>, line: Seq<char>) -> bool {
    occurs_in(line, query) ==> occurs_in(fold_case(line), fold_case(query))
}

/// Folding keeps every query in a line of ASCII characters.
pub proof fn lemma_folding_keeps_in_ascii(query: Seq<char>, line: Seq<char>)
    requires
        is_ascii_chars(line),
    ensures
        folding_keeps(query, line),
{
    if occurs_in(line, query) {
        let at = choose|at: int| occurs_at(line, query, at);
        let end = at + query.len();
        assert forall|j: int| 0 <= j < query.len() implies '\0' <= #[trigger] query[j]
            <= '\u{7f}' by {
            assert(query[j] == line.subrange(at, end)[j]);
            assert(line.subrange(at, end)[j] == line[at + j]);
        }
        assert(ascii_lowercase(line).subrange(at, end) =~= ascii_lowercase(query));
        assert(occurs_at(fold_case(line), fold_case(query), at));
    }
}

/// The lines that a case-sensitive scan returns are among those that the
/// case-insensitive scan returns for the same query and text, and in the same
/// order, provided that folding keeps the query in every line of the text.
/// Returns the positions of the former among the latter.
///
/// The condition is needed: the lower-case form of a capital sigma depends on
/// its place in the word, so a line can hold a query of which its folded form
/// does not hold the folded form.
pub proof fn lemma_insensitive_includes_sensitive(query: Seq<char>, text: Seq<char>) -> (at: Seq<
    int,
>)
    requires
        forall|j: int|
            0 <= j < lines_of(text).len() ==> folding_keeps(query, #[trigger] lines_of(text)[j]),
    ensures
        is_selection(
            matching_lines(query, text, CasePolicy::Sensitive),
            matching_lines(query, text, CasePolicy::Insensitive),
            at,
        ),
        forall|i: int|
            0 <= i < matching_lines(query, text, CasePolicy::Sensitive).len()
                ==> matching_lines(query, text, CasePolicy::Insensitive).contains(
                #[trigger] matching_lines(query, text, CasePolicy::Sensitive)[i],
            ),
{
    let lines = lines_of(text);
    let folded = |line: Seq<char>| is_match(query, line, CasePolicy::Insensitive);
    let literal = |line: Seq<char>| is_match(query, line, CasePolicy::Sensitive);
    assert forall|j: int| 0 <= j < lines.len() && literal(lines[j]) implies folded(lines[j]) by {
        assert(folding_keeps(query, lines[j]));
    }
    lemma_filter_twice(lines, folded, literal);
    let at = lemma_filter_selects(lines.filter(folded), literal);
    let sensitive = matching_lines(query, text, CasePolicy::Sensitive);
    let insensitive = matching_lines(query, text, CasePolicy::Insensitive);
    assert forall|i: int| 0 <= i < sensitive.len() implies insensitive.contains(
        #[trigger] sensitive[i],
    ) by {
        assert(insensitive[at[i]] == sensitive[i]);
    }
    at
}

/// In a text of ASCII characters the lines that a case-sensitive scan returns
/// are among those that the case-insensitive scan returns, in the same order,
/// whatever the query. Returns the positions of the former among the latter.
pub proof fn lemma_insensitive_includes_sensitive_in_ascii(query: Seq<char>, text: Seq<char>) -> (at:
    Seq<int>)
    requires
        is_ascii_chars(text),
    ensures
        is_selection(
            matching_lines(query, text, CasePolicy::Sensitive),
            matching_lines(query, text, CasePolicy::Insensitive),
            at,
        ),
        forall|i: int|
            0 <= i < matching_lines(query, text, CasePolicy::Sensitive).len()
                ==> matching_lines(query, text, CasePolicy::Insensitive).contains(
                #[trigger] matching_lines(query, text, CasePolicy::Sensitive)[i],
            ),
{
    let lines = lines_of(text);
    assert forall|j: int| 0 <= j < lines.len() implies folding_keeps(
        query,
        #[trigger] lines[j],
    ) by {
        lemma_line_is_slice(text, j);
        let start = line_start(text, j);
        let line = lines[j];
        assert forall|c: int| 0 <= c < line.len() implies '\0' <= #[trigger] line[c]
            <= '\u{7f}' by {
            assert(line[c] == text.subrange(start, start + line.len())[c]);
            assert(text.subrange(start, start + line.len())[c] == text[start + c]);
        }
        lemma_folding_keeps_in_ascii(query, line);
    }
    lemma_insensitive_includes_sensitive(query, text)
}

/// Two scans of the same text for the same query under the same policy return
/// the same lines in the same order.
pub proof fn lemma_scan_is_repeatable(
    first: Seq<&str>,
    second: Seq<&str>,
    query: Seq<char>,
    text: Seq<char>,
    policy: CasePolicy,
)
    requires
        is_scan_result(first, query, text, policy),
        is_scan_result(second, query, text, policy),
    ensures
        first.len() == second.len(),
        forall|i: int| 0 <= i < first.len() ==> first[i]@ == second[i]@,
{
    assert(views(first).len() == first.len());
    assert(views(second).len() == second.len());
    assert forall|i: int| 0 <= i < first.len() implies first[i]@ == second[i]@ by {
        assert(views(first)[i] == first[i]@);
        assert(views(second)[i] == second[i]@);
    }
}

/// The empty query matches every line, under either policy: a scan for it
/// returns all the lines of the text.
pub proof fn lemma_empty_query_matches_every_line(text: Seq<char>, policy: CasePolicy)
    ensures
        forall|line: Seq<char>| is_match(Seq::empty(), line, policy),
        matching_lines(Seq::empty(), text, policy) == lines_of(text),
{
    let query = Seq::<char>::empty();
    assert(fold_case(query) =~= query);
    assert forall|line: Seq<char>| is_match(query, line, policy) by {
        assert(line.subrange(0, 0) =~= query);
        assert(occurs_at(line, query, 0));
        assert(fold_case(line).subrange(0, 0) =~= query);
        assert(occurs_at(fold_case(line), query, 0));
    }
    let keep = |line: Seq<char>| is_match(query, line, policy);
    lemma_filter_keeps_all(lines_of(text), keep);
}

/// The empty text has no lines, so a scan of it returns nothing, whatever the
/// query and the policy.
pub proof fn lemma_empty_text_has_no_matches(query: Seq<char>, policy: CasePolicy)
    ensures
        lines_of(Seq::empty()).len() == 0,
        matching_lines(query, Seq::empty(), policy).len() == 0,
{
    reveal(Seq::filter);
}

} // verus!
