use vstd::prelude::*;

verus! {

#[verifier::external_type_specification]
#[verifier::external_body]
pub struct ExRegex(regex::Regex);

#[verifier::external_type_specification]
#[verifier::external_body]
pub struct ExRegexError(regex::Error);

/// `re` is a regex that `RegexBuilder::new(pat).case_insensitive(ci).build()`
/// returned; compilation is a deterministic function of the pattern and the
/// case flag, so this pins the behaviour of `re`.
pub uninterp spec fn regex_built(re: regex::Regex, pat: Seq<char>, ci: bool) -> bool;

/// The pattern `pat` compiles (with case flag `ci`).
pub uninterp spec fn regex_valid(pat: Seq<char>, ci: bool) -> bool;

/// The regex compiled from `pat` with case flag `ci` matches somewhere in
/// `line`.
pub uninterp spec fn regex_match(pat: Seq<char>, ci: bool, line: Seq<char>) -> bool;

/// The successive non-overlapping match spans, as byte offsets into `line`,
/// that the regex compiled from `pat` with case flag `ci` finds in `line`.
pub uninterp spec fn regex_spans(pat: Seq<char>, ci: bool, line: Seq<char>) -> Seq<(usize, usize)>;

/// Relies on regex::RegexBuilder: `new(pat).case_insensitive(ci).build()`
/// compiles the pattern deterministically and fails exactly on patterns the
/// crate rejects.
#[verifier::external_body]
pub fn regex_build(pat: &str, ci: bool) -> (r: Result<regex::Regex, regex::Error>)
    ensures
        r is Ok <==> regex_valid(pat@, ci),
        r matches Ok(re) ==> regex_built(re, pat@, ci),
{
    regex::RegexBuilder::new(pat).case_insensitive(ci).build()
}

/// Relies on regex::Regex::is_match: whether a match exists is a function of
/// the compiled pattern and the haystack alone.
#[verifier::external_body]
pub fn regex_is_match(re: &regex::Regex, line: &str) -> (r: bool)
    ensures
        forall|pat: Seq<char>, ci: bool|
            regex_built(*re, pat, ci) ==> r == regex_match(pat, ci, line@),
{
    re.is_match(line)
}

/// Relies on regex::Regex::find_iter and regex::Match::start / end: the spans
/// are successive non-overlapping matches, reported as byte offsets into the
/// haystack with `start <= end <= haystack byte length`, and both offsets are
/// guaranteed to fall on UTF-8 codepoint boundaries.
#[verifier::external_body]
pub fn regex_find_spans(re: &regex::Regex, line: &str) -> (r: Vec<(usize, usize)>)
    ensures
        forall|pat: Seq<char>, ci: bool|
            regex_built(*re, pat, ci) ==> r@ == regex_spans(pat, ci, line@),
        forall|k: int|
            0 <= k < r@.len() ==> (#[trigger] r@[k]).0 <= r@[k].1 <= vstd::utf8::encode_utf8(
                line@,
            ).len(),
        forall|k: int| 0 <= k < r@.len() - 1 ==> (#[trigger] r@[k]).1 <= r@[k + 1].0,
        forall|k: int|
            0 <= k < r@.len() ==> vstd::utf8::is_char_boundary(
                vstd::utf8::encode_utf8(line@),
                (#[trigger] r@[k]).0 as int,
            ) && vstd::utf8::is_char_boundary(
                vstd::utf8::encode_utf8(line@),
                r@[k].1 as int,
            ),
{
    let mut v: Vec<(usize, usize)> = Vec::new();
    for m in re.find_iter(line) {
        v.push((m.start(), m.end()));
    }
    v
}

} // verus!
