use vstd::prelude::*;

verus! {

#[verifier::external_type_specification]
#[verifier::external_body]
pub struct ExSkimMatcherV2(fuzzy_matcher::skim::SkimMatcherV2);

/// `m` is a default-configured skim matcher.
pub uninterp spec fn skim_default(m: fuzzy_matcher::skim::SkimMatcherV2) -> bool;

/// The similarity score the default skim matcher assigns to `line` against
/// `query`: a deterministic function of the two strings; `None` when no
/// subsequence alignment exists.
pub uninterp spec fn fuzzy_score(line: Seq<char>, query: Seq<char>) -> Option<i64>;

/// Relies on SkimMatcherV2::default.
#[verifier::external_body]
pub fn skim_new() -> (m: fuzzy_matcher::skim::SkimMatcherV2)
    ensures
        skim_default(m),
{
    fuzzy_matcher::skim::SkimMatcherV2::default()
}

/// Relies on FuzzyMatcher::fuzzy_match for SkimMatcherV2: with the default
/// configuration the score is a deterministic function of line and query.
#[verifier::external_body]
pub fn skim_fuzzy_match(
    m: &fuzzy_matcher::skim::SkimMatcherV2,
    line: &str,
    query: &str,
) -> (r: Option<i64>)
    ensures
        skim_default(*m) ==> r == fuzzy_score(line@, query@),
{
    fuzzy_matcher::FuzzyMatcher::fuzzy_match(m, line, query)
}

} // verus!
