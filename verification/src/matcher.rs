//! Deciding whether one line contains the query, with or without regard to
//! letter case.

use vstd::prelude::*;
use vstd::string::*;
use vstd::utf8::*;
use crate::encoding::lemma_occurs_in_encoding;
use crate::substring::{bytes_occur_in, occurs_in};

verus! {

/// Whether matching tells upper-case letters from lower-case ones.
#[derive(Clone, Copy, PartialEq, Eq, Debug, Structural)]
pub enum CasePolicy {
    /// The query has to stand in the line letter for letter.
    Sensitive,
    /// Query and line are both case-folded before they are compared.
    Insensitive,
}

/// The text that `str::to_lowercase` returns for the text `s`.
pub uninterp spec fn lowercase_of(s: Seq<char>) -> Seq<char>;

/// The lower-case form of an ASCII letter; every other character unchanged.
pub open spec fn ascii_lower(c: char) -> char {
    if 'A' <= c <= 'Z' {
        ((c as u32) + 32) as char
    } else {
        c
    }
}

/// `s` with each of its characters replaced by its `ascii_lower`.
pub open spec fn ascii_lowercase(s: Seq<char>) -> Seq<char> {
    s.map_values(|c: char| ascii_lower(c))
}

/// The case-folded form of `s`. For ASCII text it is spelled out; for any
/// other text it is whatever the standard library's lower-casing gives.
pub open spec fn fold_case(s: Seq<char>) -> Seq<char> {
    if is_ascii_chars(s) {
        ascii_lowercase(s)
    } else {
        lowercase_of(s)
    }
}

/// Whether `line` matches `query` under `policy`.
pub open spec fn is_match(query: Seq<char>, line: Seq<char>, policy: CasePolicy) -> bool {
    match policy {
        CasePolicy::Sensitive => occurs_in(line, query),
        CasePolicy::Insensitive => occurs_in(fold_case(line), fold_case(query)),
    }
}

/// Calls `str::to_lowercase`, whose result is not computed by verified code.
///
/// Assumed of it: the result depends on the characters of `s` alone, and for a
/// text of ASCII characters only it is that text with `A` to `Z` replaced by
/// `a` to `z` and nothing else changed.
#[verifier::external_body]
fn to_lowercase(s: &str) -> (lower: String)
    ensures
        lower@ == lowercase_of(s@),
        is_ascii_chars(s@) ==> lower@ == ascii_lowercase(s@),
{
    s.to_lowercase()
}

/// Case-folds `s`.
pub fn fold(s: &str) -> (folded: String)
    ensures
        folded@ == fold_case(s@),
{
    to_lowercase(s)
}

/// Whether `needle` stands in `hay` as a contiguous run of characters.
/// The empty `needle` stands in every `hay`.
pub fn contains(hay: &str, needle: &str) -> (found: bool)
    ensures
        found == occurs_in(hay@, needle@),
{
    proof {
        lemma_occurs_in_encoding(hay@, needle@);
    }
    bytes_occur_in(hay.as_bytes(), needle.as_bytes())
}

/// Whether `line` matches `query` under `policy`.
pub fn line_matches(query: &str, line: &str, policy: CasePolicy) -> (matched: bool)
    ensures
        matched == is_match(query@, line@, policy),
{
    match policy {
        CasePolicy::Sensitive => contains(line, query),
        CasePolicy::Insensitive => {
            let folded_line = fold(line);
            let folded_query = fold(query);
            contains(folded_line.as_str(), folded_query.as_str())
        },
    }
}

} // verus!
