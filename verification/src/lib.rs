use vstd::prelude::*;

pub mod args;
pub mod context;
pub mod fuzzy;
pub mod highlight;
pub mod lines;
pub mod matcher;
pub mod re;
pub mod text;

use crate::lines::{lines_of, split_lines};
use crate::re::{regex_built, regex_is_match, regex_match};
use crate::text::{contains_str, contains_str_ci, str_contains, str_contains_ci};

verus! {

/// The lines that contain `q` as a literal substring, in order.
pub open spec fn exact_matching_lines(lines: Seq<Seq<char>>, q: Seq<char>) -> Seq<Seq<char>>
    decreases lines.len(),
{
    if lines.len() == 0 {
        Seq::empty()
    } else {
        exact_matching_lines(lines.drop_last(), q) + (if str_contains(lines.last(), q) {
            seq![lines.last()]
        } else {
            Seq::empty()
        })
    }
}

/// The lines that contain `q` ignoring ASCII case, in order.
pub open spec fn ci_matching_lines(lines: Seq<Seq<char>>, q: Seq<char>) -> Seq<Seq<char>>
    decreases lines.len(),
{
    if lines.len() == 0 {
        Seq::empty()
    } else {
        ci_matching_lines(lines.drop_last(), q) + (if str_contains_ci(lines.last(), q) {
            seq![lines.last()]
        } else {
            Seq::empty()
        })
    }
}

/// The lines somewhere in which the regex compiled from `pat` (with case flag
/// `ci`) matches, in order.
pub open spec fn regex_matching_lines(
    lines: Seq<Seq<char>>,
    pat: Seq<char>,
    ci: bool,
) -> Seq<Seq<char>>
    decreases lines.len(),
{
    if lines.len() == 0 {
        Seq::empty()
    } else {
        regex_matching_lines(lines.drop_last(), pat, ci) + (if regex_match(
            pat,
            ci,
            lines.last(),
        ) {
            seq![lines.last()]
        } else {
            Seq::empty()
        })
    }
}

/// The lines of `contents` that contain `query` as a literal substring.
pub fn search<'a>(query: &str, contents: &'a str) -> (r: Vec<&'a str>)
    ensures
        r.deep_view() == exact_matching_lines(lines_of(contents@), query@),
{
    let lines = split_lines(contents);
    let mut r: Vec<&'a str> = Vec::new();
    proof {
        assert(lines.deep_view().take(0) =~= Seq::<Seq<char>>::empty());
        assert(r.deep_view() =~= exact_matching_lines(lines.deep_view().take(0), query@));
    }
    let mut i: usize = 0;
    while i < lines.len()
        invariant
            i <= lines@.len(),
            lines.deep_view().len() == lines@.len(),
            lines.deep_view() == lines_of(contents@),
            r.deep_view() == exact_matching_lines(lines.deep_view().take(i as int), query@),
        decreases lines@.len() - i,
    {
        let line = lines[i];
        let ghost pre = r.deep_view();
        let c = contains_str(line, query);
        if c {
            r.push(line);
        }
        proof {
            assert(lines.deep_view()[i as int] == lines@[i as int]@);
            assert(lines.deep_view().take(i + 1).drop_last() =~= lines.deep_view().take(i as int));
            assert(lines.deep_view().take(i + 1).last() == line@);
            if c {
                assert(r.deep_view() =~= pre + seq![line@]);
            } else {
                assert(r.deep_view() =~= pre + Seq::<Seq<char>>::empty());
            }
        }
        i = i + 1;
    }
    proof {
        assert(lines.deep_view().take(lines@.len() as int) =~= lines.deep_view());
    }
    r
}

/// The lines of `contents` that contain `query` ignoring ASCII case.
pub fn search_case_insensitive<'a>(query: &str, contents: &'a str) -> (r: Vec<&'a str>)
    ensures
        r.deep_view() == ci_matching_lines(lines_of(contents@), query@),
{
    let lines = split_lines(contents);
    let mut r: Vec<&'a str> = Vec::new();
    proof {
        assert(lines.deep_view().take(0) =~= Seq::<Seq<char>>::empty());
        assert(r.deep_view() =~= ci_matching_lines(lines.deep_view().take(0), query@));
    }
    let mut i: usize = 0;
    while i < lines.len()
        invariant
            i <= lines@.len(),
            lines.deep_view().len() == lines@.len(),
            lines.deep_view() == lines_of(contents@),
            r.deep_view() == ci_matching_lines(lines.deep_view().take(i as int), query@),
        decreases lines@.len() - i,
    {
        let line = lines[i];
        let ghost pre = r.deep_view();
        let c = contains_str_ci(line, query);
        if c {
            r.push(line);
        }
        proof {
            assert(lines.deep_view()[i as int] == lines@[i as int]@);
            assert(lines.deep_view().take(i + 1).drop_last() =~= lines.deep_view().take(i as int));
            assert(lines.deep_view().take(i + 1).last() == line@);
            if c {
                assert(r.deep_view() =~= pre + seq![line@]);
            } else {
                assert(r.deep_view() =~= pre + Seq::<Seq<char>>::empty());
            }
        }
        i = i + 1;
    }
    proof {
        assert(lines.deep_view().take(lines@.len() as int) =~= lines.deep_view());
    }
    r
}

/// The lines of `contents` in which the compiled pattern matches somewhere.
pub fn search_regex<'a>(pattern: &regex::Regex, contents: &'a str) -> (r: Vec<&'a str>)
    ensures
        forall|pat: Seq<char>, ci: bool|
            regex_built(*pattern, pat, ci) ==> r.deep_view() == regex_matching_lines(
                lines_of(contents@),
                pat,
                ci,
            ),
{
    let lines = split_lines(contents);
    let mut r: Vec<&'a str> = Vec::new();
    proof {
        assert(lines.deep_view().take(0) =~= Seq::<Seq<char>>::empty());
        assert forall|pat: Seq<char>, ci: bool| regex_built(*pattern, pat, ci) implies r.deep_view()
            == regex_matching_lines(lines.deep_view().take(0), pat, ci) by {
            assert(r.deep_view() =~= regex_matching_lines(lines.deep_view().take(0), pat, ci));
        }
    }
    let mut i: usize = 0;
    while i < lines.len()
        invariant
            i <= lines@.len(),
            lines.deep_view().len() == lines@.len(),
            lines.deep_view() == lines_of(contents@),
            forall|pat: Seq<char>, ci: bool|
                regex_built(*pattern, pat, ci) ==> r.deep_view() == regex_matching_lines(
                    lines.deep_view().take(i as int),
                    pat,
                    ci,
                ),
        decreases lines@.len() - i,
    {
        let line = lines[i];
        let ghost pre = r.deep_view();
        let c = regex_is_match(pattern, line);
        if c {
            r.push(line);
        }
        proof {
            assert(lines.deep_view()[i as int] == lines@[i as int]@);
            assert(lines.deep_view().take(i + 1).drop_last() =~= lines.deep_view().take(i as int));
            assert(lines.deep_view().take(i + 1).last() == line@);
            assert forall|pat: Seq<char>, ci: bool|
                regex_built(*pattern, pat, ci) implies r.deep_view() == regex_matching_lines(
                lines.deep_view().take(i + 1),
                pat,
                ci,
            ) by {
                assert(c == regex_match(pat, ci, line@));
                if c {
                    assert(r.deep_view() =~= pre + seq![line@]);
                } else {
                    assert(r.deep_view() =~= pre + Seq::<Seq<char>>::empty());
                }
            }
        }
        i = i + 1;
    }
    proof {
        assert(lines.deep_view().take(lines@.len() as int) =~= lines.deep_view());
    }
    r
}

} // verus!
