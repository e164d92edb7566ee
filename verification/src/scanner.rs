//! Collecting the lines of a text that match a query.

use vstd::prelude::*;
use vstd::string::*;
use vstd::utf8::*;
use crate::encoding::{lemma_first_break_in_encoding, NEWLINE_BYTE};
use crate::lines::{after_first_line, first_line, is_first_break, lines_of};
use crate::matcher::{contains, fold, fold_case, is_match, CasePolicy};

verus! {

/// The lines of `text` that match `query` under `policy`, in the order in
/// which they stand in `text`. A line that holds the query several times is
/// there once.
pub open spec fn matching_lines(query: Seq<char>, text: Seq<char>, policy: CasePolicy) -> Seq<
    Seq<char>,
> {
    lines_of(text).filter(|line: Seq<char>| is_match(query, line, policy))
}

/// The characters of each of `lines`.
pub open spec fn views(lines: Seq<&str>) -> Seq<Seq<char>> {
    lines.map_values(|line: &str| line@)
}

/// `found` is what a scan of `text` for `query` under `policy` returns: the
/// matching lines of `text`, each once, in the order of `text`.
pub open spec fn is_scan_result(
    found: Seq<&str>,
    query: Seq<char>,
    text: Seq<char>,
    policy: CasePolicy,
) -> bool {
    views(found) == matching_lines(query, text, policy)
}

/// Scanning a text that is not empty is deciding on its first line and
/// scanning what comes after that line.
pub proof fn lemma_matching_lines_step(query: Seq<char>, text: Seq<char>, policy: CasePolicy)
    requires
        text.len() > 0,
    ensures
        after_first_line(text).len() < text.len(),
        matching_lines(query, text, policy) == (if is_match(query, first_line(text), policy) {
            seq![first_line(text)]
        } else {
            Seq::empty()
        }) + matching_lines(query, after_first_line(text), policy),
{
    let keep = |line: Seq<char>| is_match(query, line, policy);
    lines_of(after_first_line(text)).lemma_filter_prepend(first_line(text), keep);
}

/// The position of the first newline byte of `bytes`, or their number where
/// there is none.
fn first_newline_byte(bytes: &[u8]) -> (k: usize)
    ensures
        is_first_break(bytes@, NEWLINE_BYTE, k as int),
{
    let n: usize = bytes.len();
    let mut k: usize = 0;
    while k < n && bytes[k] != NEWLINE_BYTE
        invariant
            n == bytes@.len(),
            k <= n,
            forall|j: int| 0 <= j < k ==> bytes@[j] != NEWLINE_BYTE,
        decreases n - k,
    {
        k += 1;
    }
    k
}

/// Splits `text` at its first line feed: returns the first line, without the
/// line feed, and the text after the line feed. Where `text` has no line feed
/// the first line is all of it and the rest is empty.
pub fn split_first_line<'a>(text: &'a str) -> (parts: (&'a str, &'a str))
    ensures
        parts.0@ == first_line(text@),
        parts.1@ == after_first_line(text@),
{
    broadcast use encode_utf8_decode_utf8;

    let bytes = text.as_bytes();
    let k = first_newline_byte(bytes);
    proof {
        lemma_first_break_in_encoding(text@, k as int);
    }
    let (line, tail) = text.split_at(k);
    if k == bytes.len() {
        (line, tail)
    } else {
        let (_, after) = tail.split_at(1);
        (line, after)
    }
}

/// Returns the lines of `contents` that contain `query`, letter for letter,
/// in the order in which they stand in `contents`.
pub fn search<'a>(query: &str, contents: &'a str) -> (results: Vec<&'a str>)
    ensures
        is_scan_result(results@, query@, contents@, CasePolicy::Sensitive),
{
    let mut results: Vec<&'a str> = Vec::new();
    let mut rest: &'a str = contents;
    assert(views(results@) =~= Seq::<Seq<char>>::empty());
    while !rest.is_empty()
        invariant
            views(results@) + matching_lines(query@, rest@, CasePolicy::Sensitive)
                == matching_lines(query@, contents@, CasePolicy::Sensitive),
        decreases rest@.len(),
    {
        proof {
            lemma_matching_lines_step(query@, rest@, CasePolicy::Sensitive);
        }
        let ghost before = views(results@);
        let (line, tail) = split_first_line(rest);
        if contains(line, query) {
            results.push(line);
            assert(views(results@) =~= before + seq![line@]);
        }
        rest = tail;
    }
    assert(matching_lines(query@, rest@, CasePolicy::Sensitive) =~= Seq::<Seq<char>>::empty())
        by {
        reveal(Seq::filter);
    }
    results
}

/// Returns the lines of `contents` whose case-folded form contains the
/// case-folded `query`, in the order in which they stand in `contents`.
pub fn search_case_insensitive<'a>(query: &str, contents: &'a str) -> (results: Vec<&'a str>)
    ensures
        is_scan_result(results@, query@, contents@, CasePolicy::Insensitive),
{
    let folded_query = fold(query);
    let mut results: Vec<&'a str> = Vec::new();
    let mut rest: &'a str = contents;
    assert(views(results@) =~= Seq::<Seq<char>>::empty());
    while !rest.is_empty()
        invariant
            folded_query@ == fold_case(query@),
            views(results@) + matching_lines(query@, rest@, CasePolicy::Insensitive)
                == matching_lines(query@, contents@, CasePolicy::Insensitive),
        decreases rest@.len(),
    {
        proof {
            lemma_matching_lines_step(query@, rest@, CasePolicy::Insensitive);
        }
        let ghost before = views(results@);
        let (line, tail) = split_first_line(rest);
        let folded_line = fold(line);
        if contains(folded_line.as_str(), folded_query.as_str()) {
            results.push(line);
            assert(views(results@) =~= before + seq![line@]);
        }
        rest = tail;
    }
    assert(matching_lines(query@, rest@, CasePolicy::Insensitive) =~= Seq::<Seq<char>>::empty())
        by {
        reveal(Seq::filter);
    }
    results
}

/// Returns the lines of `text` that match `query` under `policy`, in the
/// order in which they stand in `text`.
pub fn scan<'a>(query: &str, text: &'a str, policy: CasePolicy) -> (found: Vec<&'a str>)
    ensures
        is_scan_result(found@, query@, text@, policy),
{
    match policy {
        CasePolicy::Sensitive => search(query, text),
        CasePolicy::Insensitive => search_case_insensitive(query, text),
    }
}

} // verus!
