use vstd::prelude::*;

use crate::args::Args;
use crate::context::strictly_ascending;
use crate::fuzzy::{fuzzy_score, skim_default, skim_fuzzy_match, skim_new};
use crate::re::{regex_build, regex_built, regex_is_match, regex_match, regex_valid};
use crate::text::{
    contains_bytes, contains_seq, contains_str, lower_of, str_contains, str_contains_ci,
    to_lowercase,
};

verus! {

/// The matching strategy, carrying only the data its mode needs; queries are
/// pre-normalized per mode.
pub enum MatcherKind {
    /// Case-sensitive literal containment; the queries as given.
    Exact(Vec<String>),
    /// Case-insensitive literal containment; the lowercased queries.
    CaseInsensitive(Vec<String>),
    /// Regular expressions; each pattern together with its compiled form.
    Regex(Vec<(String, regex::Regex)>),
    /// Fuzzy matching: the queries, the scorer, and the acceptance threshold.
    Fuzzy(Vec<String>, fuzzy_matcher::skim::SkimMatcherV2, i64),
}

/// A line classifier: one strategy plus the inversion flag, fixed at
/// construction.
pub struct Matcher {
    pub kind: MatcherKind,
    pub invert: bool,
}

/// Construction failure: a query did not compile as a regular expression.
#[derive(Debug)]
pub enum SearchError {
    InvalidPattern(String),
}

/// Some query is a literal substring of the line.
pub open spec fn exact_hit(queries: Seq<Seq<char>>, line: Seq<char>) -> bool {
    exists|k: int| 0 <= k < queries.len() && str_contains(line, #[trigger] queries[k])
}

/// Some query matches the line ignoring ASCII case.
pub open spec fn ci_hit(queries: Seq<Seq<char>>, line: Seq<char>) -> bool {
    exists|k: int| 0 <= k < queries.len() && str_contains_ci(line, #[trigger] queries[k])
}

/// Some pre-lowercased query is contained in the lowercased line.
pub open spec fn ci_hit_lowered(lowered: Seq<Seq<char>>, line: Seq<char>) -> bool {
    exists|k: int|
        0 <= k < lowered.len() && contains_seq(
            vstd::utf8::encode_utf8(lower_of(line)),
            vstd::utf8::encode_utf8(#[trigger] lowered[k]),
        )
}

/// Some pattern's regex matches the line.
pub open spec fn regex_hit(pats: Seq<Seq<char>>, line: Seq<char>) -> bool {
    exists|k: int| 0 <= k < pats.len() && regex_match(#[trigger] pats[k], false, line)
}

/// The fuzzy score of `line` against `q` exists and reaches the threshold.
pub open spec fn fuzzy_accepts(line: Seq<char>, q: Seq<char>, threshold: i64) -> bool {
    match fuzzy_score(line, q) {
        Some(sc) => sc >= threshold,
        None => false,
    }
}

/// Some query fuzzy-matches the line at the threshold.
pub open spec fn fuzzy_hit(queries: Seq<Seq<char>>, threshold: i64, line: Seq<char>) -> bool {
    exists|k: int| 0 <= k < queries.len() && fuzzy_accepts(line, #[trigger] queries[k], threshold)
}

impl MatcherKind {
    /// The trusted facts recorded at construction: compiled regexes belong to
    /// their stored patterns, and the scorer is the default one.
    pub open spec fn wf(&self) -> bool {
        match self {
            MatcherKind::Regex(rs) => forall|k: int|
                0 <= k < rs@.len() ==> regex_built((#[trigger] rs@[k]).1, rs@[k].0@, false),
            MatcherKind::Fuzzy(_, m, _) => skim_default(*m),
            _ => true,
        }
    }

    /// The stored patterns of a regex strategy.
    pub open spec fn regex_pats(&self) -> Seq<Seq<char>> {
        self->Regex_0@.map_values(|p: (String, regex::Regex)| p.0@)
    }

    /// Whether the line is a hit, before inversion.
    pub open spec fn hit(&self, line: Seq<char>) -> bool {
        match self {
            MatcherKind::Exact(qs) => exact_hit(qs.deep_view(), line),
            MatcherKind::CaseInsensitive(lqs) => ci_hit_lowered(lqs.deep_view(), line),
            MatcherKind::Regex(_) => regex_hit(self.regex_pats(), line),
            MatcherKind::Fuzzy(qs, _, t) => fuzzy_hit(qs.deep_view(), *t, line),
        }
    }
}

/// What a configuration asks a line to be, before inversion: the per-mode
/// predicate over the original queries, combined with OR.
pub open spec fn args_hit(args: Args, line: Seq<char>) -> bool {
    if args.fuzzy {
        fuzzy_hit(args.query.deep_view(), args.fuzzy_threshold, line)
    } else if args.regex {
        regex_hit(args.query.deep_view(), line)
    } else if args.ignore_case {
        ci_hit(args.query.deep_view(), line)
    } else {
        exact_hit(args.query.deep_view(), line)
    }
}

impl Matcher {
    pub open spec fn wf(&self) -> bool {
        self.kind.wf()
    }

    /// What `is_match` returns on a line with this view.
    pub open spec fn spec_is_match(&self, line: Seq<char>) -> bool {
        if self.invert {
            !self.kind.hit(line)
        } else {
            self.kind.hit(line)
        }
    }

    /// Build a matcher from the configuration. Fails exactly when regex mode
    /// is selected and some query does not compile; the error carries such a
    /// query.
    pub fn new(args: &Args) -> (r: Result<Matcher, SearchError>)
        ensures
            r is Ok <==> (args.fuzzy || !args.regex || forall|k: int|
                0 <= k < args.query@.len() ==> regex_valid((#[trigger] args.query@[k])@, false)),
            r matches Ok(m) ==> {
                &&& m.wf()
                &&& m.invert == args.invert
                &&& forall|line: Seq<char>| #[trigger] m.kind.hit(line) == args_hit(*args, line)
            },
            r matches Err(e) ==> (e matches SearchError::InvalidPattern(p) && exists|k: int|
                0 <= k < args.query@.len() && (#[trigger] args.query@[k])@ == p@ && !regex_valid(
                    p@,
                    false,
                )),
    {
        if args.fuzzy {
            let m = Matcher {
                kind: MatcherKind::Fuzzy(clone_queries(&args.query), skim_new(), args.fuzzy_threshold),
                invert: args.invert,
            };
            proof {
                assert(forall|line: Seq<char>| #[trigger]
                    m.kind.hit(line) == args_hit(*args, line));
            }
            Ok(m)
        } else if args.regex {
            let mut rs: Vec<(String, regex::Regex)> = Vec::new();
            let mut k: usize = 0;
            while k < args.query.len()
                invariant
                    !args.fuzzy,
                    args.regex,
                    k <= args.query@.len(),
                    rs@.len() == k,
                    forall|j: int|
                        0 <= j < k ==> regex_built(
                            (#[trigger] rs@[j]).1,
                            rs@[j].0@,
                            false,
                        ),
                    forall|j: int| 0 <= j < k ==> (#[trigger] rs@[j]).0@ == args.query@[j]@,
                    forall|j: int|
                        0 <= j < k ==> regex_valid((#[trigger] args.query@[j])@, false),
                decreases args.query@.len() - k,
            {
                let q = &args.query[k];
                match regex_build(q.as_str(), false) {
                    Ok(re) => {
                        rs.push((q.clone(), re));
                    },
                    Err(_) => {
                        proof {
                            assert(!regex_valid(args.query@[k as int]@, false));
                        }
                        return Err(SearchError::InvalidPattern(q.clone()));
                    },
                }
                k = k + 1;
            }
            let m = Matcher { kind: MatcherKind::Regex(rs), invert: args.invert };
            proof {
                assert(m.kind.regex_pats() =~= args.query.deep_view());
                assert(forall|line: Seq<char>| #[trigger]
                    m.kind.hit(line) == args_hit(*args, line));
            }
            Ok(m)
        } else if args.ignore_case {
            let mut lqs: Vec<String> = Vec::new();
            let mut k: usize = 0;
            while k < args.query.len()
                invariant
                    k <= args.query@.len(),
                    lqs@.len() == k,
                    forall|j: int| 0 <= j < k ==> (#[trigger] lqs@[j])@ == lower_of(args.query@[j]@),
                decreases args.query@.len() - k,
            {
                lqs.push(to_lowercase(args.query[k].as_str()));
                k = k + 1;
            }
            let m = Matcher { kind: MatcherKind::CaseInsensitive(lqs), invert: args.invert };
            proof {
                assert(lqs.deep_view().len() == args.query.deep_view().len());
                assert forall|j: int| 0 <= j < args.query.deep_view().len() implies #[trigger] lqs.deep_view()[j]
                    == lower_of(args.query.deep_view()[j]) by {
                    assert(lqs.deep_view()[j] == lqs@[j]@);
                    assert(args.query.deep_view()[j] == args.query@[j]@);
                }
                assert forall|line: Seq<char>| #[trigger] m.kind.hit(line) == args_hit(
                    *args,
                    line,
                ) by {
                    lemma_ci_hit_equiv(lqs.deep_view(), args.query.deep_view(), line);
                }
            }
            Ok(m)
        } else {
            let m = Matcher {
                kind: MatcherKind::Exact(clone_queries(&args.query)),
                invert: args.invert,
            };
            proof {
                assert(forall|line: Seq<char>| #[trigger]
                    m.kind.hit(line) == args_hit(*args, line));
            }
            Ok(m)
        }
    }

    /// Classify one line, applying inversion.
    pub fn is_match(&self, line: &str) -> (r: bool)
        requires
            self.wf(),
        ensures
            r == self.spec_is_match(line@),
    {
        let hit = match &self.kind {
            MatcherKind::Exact(qs) => {
                let mut found = false;
                let mut k: usize = 0;
                while k < qs.len()
                    invariant
                        k <= qs@.len(),
                        found == exists|j: int|
                            0 <= j < k && str_contains(line@, #[trigger] qs.deep_view()[j]),
                    decreases qs@.len() - k,
                {
                    let c = contains_str(line, qs[k].as_str());
                    proof {
                        assert(qs.deep_view()[k as int] == qs@[k as int]@);
                        if c {
                            assert(str_contains(line@, qs.deep_view()[k as int]));
                        }
                    }
                    found = found || c;
                    k = k + 1;
                }
                found
            },
            MatcherKind::CaseInsensitive(lqs) => {
                let ll = to_lowercase(line);
                let mut found = false;
                let mut k: usize = 0;
                while k < lqs.len()
                    invariant
                        k <= lqs@.len(),
                        ll@ == lower_of(line@),
                        found == exists|j: int|
                            0 <= j < k && contains_seq(
                                vstd::utf8::encode_utf8(lower_of(line@)),
                                vstd::utf8::encode_utf8(#[trigger] lqs.deep_view()[j]),
                            ),
                    decreases lqs@.len() - k,
                {
                    let c = contains_bytes(ll.as_str().as_bytes(), lqs[k].as_str().as_bytes());
                    proof {
                        assert(lqs.deep_view()[k as int] == lqs@[k as int]@);
                        if c {
                            assert(contains_seq(
                                vstd::utf8::encode_utf8(lower_of(line@)),
                                vstd::utf8::encode_utf8(lqs.deep_view()[k as int]),
                            ));
                        }
                    }
                    found = found || c;
                    k = k + 1;
                }
                found
            },
            MatcherKind::Regex(rs) => {
                let mut found = false;
                let mut k: usize = 0;
                while k < rs.len()
                    invariant
                        k <= rs@.len(),
                        self.wf(),
                        self.kind matches MatcherKind::Regex(v) && v@ == rs@,
                        found == exists|j: int|
                            0 <= j < k && regex_match(
                                #[trigger] self.kind.regex_pats()[j],
                                false,
                                line@,
                            ),
                    decreases rs@.len() - k,
                {
                    let pair = &rs[k];
                    let c = regex_is_match(&pair.1, line);
                    proof {
                        assert(regex_built(rs@[k as int].1, rs@[k as int].0@, false));
                        assert(self.kind.regex_pats()[k as int] == rs@[k as int].0@);
                        if c {
                            assert(regex_match(self.kind.regex_pats()[k as int], false, line@));
                        }
                    }
                    found = found || c;
                    k = k + 1;
                }
                found
            },
            MatcherKind::Fuzzy(qs, m, t) => {
                let mut found = false;
                let mut k: usize = 0;
                while k < qs.len()
                    invariant
                        k <= qs@.len(),
                        self.wf(),
                        self.kind matches MatcherKind::Fuzzy(v, mm, tt) && v@ == qs@ && tt == *t
                            && skim_default(*m),
                        found == exists|j: int|
                            0 <= j < k && fuzzy_accepts(line@, #[trigger] qs.deep_view()[j], *t),
                    decreases qs@.len() - k,
                {
                    let sc = skim_fuzzy_match(m, line, qs[k].as_str());
                    let c = match sc {
                        Some(s) => s >= *t,
                        None => false,
                    };
                    proof {
                        assert(qs.deep_view()[k as int] == qs@[k as int]@);
                        if c {
                            assert(fuzzy_accepts(line@, qs.deep_view()[k as int], *t));
                        }
                    }
                    found = found || c;
                    k = k + 1;
                }
                found
            },
        };
        if self.invert {
            !hit
        } else {
            hit
        }
    }

    /// The ascending indices of the lines this matcher accepts.
    pub fn match_indices(&self, lines: &Vec<&str>) -> (r: Vec<usize>)
        requires
            self.wf(),
        ensures
            strictly_ascending(r@),
            forall|k: int| 0 <= k < r@.len() ==> r@[k] < lines@.len(),
            forall|i: int|
                0 <= i < lines@.len() ==> (r@.contains(i as usize) <==> self.spec_is_match(
                    lines@[i]@,
                )),
    {
        let mut r: Vec<usize> = Vec::new();
        let mut i: usize = 0;
        while i < lines.len()
            invariant
                i <= lines@.len(),
                self.wf(),
                strictly_ascending(r@),
                forall|k: int| 0 <= k < r@.len() ==> r@[k] < i,
                forall|j: int|
                    0 <= j < i ==> (r@.contains(j as usize) <==> self.spec_is_match(lines@[j]@)),
            decreases lines@.len() - i,
        {
            let ghost rpre = r@;
            if self.is_match(lines[i]) {
                r.push(i);
            }
            proof {
                assert forall|j: int|
                    0 <= j < i + 1 implies (r@.contains(j as usize) <==> self.spec_is_match(
                    lines@[j]@,
                )) by {
                    if r@ == rpre.push(i) {
                        lemma_push_contains(rpre, i, j as usize);
                    }
                }
            }
            i = i + 1;
        }
        r
    }
}

/// Membership in a pushed sequence.
proof fn lemma_push_contains(s: Seq<usize>, x: usize, y: usize)
    ensures
        s.push(x).contains(y) <==> (s.contains(y) || y == x),
{
    if s.contains(y) {
        let k = choose|k: int| 0 <= k < s.len() && s[k] == y;
        assert(s.push(x)[k] == y);
    }
    if y == x {
        assert(s.push(x)[s.len() as int] == y);
    }
    if s.push(x).contains(y) {
        let k = choose|k: int| 0 <= k < s.push(x).len() && s.push(x)[k] == y;
        if k < s.len() {
            assert(s[k] == y);
        }
    }
}

/// Clone a query list.
fn clone_queries(qs: &Vec<String>) -> (r: Vec<String>)
    ensures
        r.deep_view() == qs.deep_view(),
        r@.len() == qs@.len(),
        forall|k: int| 0 <= k < qs@.len() ==> (#[trigger] r@[k])@ == qs@[k]@,
{
    let mut r: Vec<String> = Vec::new();
    let mut k: usize = 0;
    while k < qs.len()
        invariant
            k <= qs@.len(),
            r@.len() == k,
            forall|j: int| 0 <= j < k ==> (#[trigger] r@[j])@ == qs@[j]@,
        decreases qs@.len() - k,
    {
        r.push(qs[k].clone());
        k = k + 1;
    }
    proof {
        assert(r.deep_view() =~= qs.deep_view());
    }
    r
}

// --- laws of the matcher ------------------------------------------------------

/// In Exact mode without inversion, a line matches exactly when at least one
/// query of the non-empty query set is a literal substring of it.
pub proof fn lemma_exact_match_law(m: Matcher, args: Args, line: Seq<char>)
    requires
        !args.fuzzy,
        !args.regex,
        !args.ignore_case,
        !args.invert,
        m.invert == args.invert,
        forall|l: Seq<char>| #[trigger] m.kind.hit(l) == args_hit(args, l),
    ensures
        m.spec_is_match(line) <==> exists|k: int|
            0 <= k < args.query.deep_view().len() && str_contains(
                line,
                #[trigger] args.query.deep_view()[k],
            ),
{
}

/// Inversion negates: two matchers with the same strategy and opposite invert
/// flags classify every line oppositely.
pub proof fn lemma_invert_negates(m1: Matcher, m2: Matcher, line: Seq<char>)
    requires
        m1.kind == m2.kind,
        m1.invert == !m2.invert,
    ensures
        m1.spec_is_match(line) == !m2.spec_is_match(line),
{
}

/// Case-insensitive matching depends only on the lowercased line: two lines
/// with the same lowercase form match the same queries.
pub proof fn lemma_ci_lower_only(lowered: Seq<Seq<char>>, l1: Seq<char>, l2: Seq<char>)
    requires
        lower_of(l1) == lower_of(l2),
    ensures
        ci_hit_lowered(lowered, l1) <==> ci_hit_lowered(lowered, l2),
{
}

/// The same, for a whole case-insensitive matcher, inversion included: the
/// verdict is a function of the line's lowercase form alone, so any case
/// variant of a line with the same lowercase form is classified alike.
pub proof fn lemma_ci_matcher_lower_only(m: Matcher, l1: Seq<char>, l2: Seq<char>)
    requires
        m.kind matches MatcherKind::CaseInsensitive(_),
        lower_of(l1) == lower_of(l2),
    ensures
        m.spec_is_match(l1) == m.spec_is_match(l2),
{
}

/// Pre-lowercased queries match a line exactly when the original queries match
/// it case-insensitively.
proof fn lemma_ci_hit_equiv(lowered: Seq<Seq<char>>, queries: Seq<Seq<char>>, line: Seq<char>)
    requires
        lowered.len() == queries.len(),
        forall|k: int| 0 <= k < queries.len() ==> #[trigger] lowered[k] == lower_of(queries[k]),
    ensures
        ci_hit_lowered(lowered, line) <==> ci_hit(queries, line),
{
    if ci_hit_lowered(lowered, line) {
        let k = choose|k: int|
            0 <= k < lowered.len() && contains_seq(
                vstd::utf8::encode_utf8(lower_of(line)),
                vstd::utf8::encode_utf8(#[trigger] lowered[k]),
            );
        assert(str_contains_ci(line, queries[k]));
    }
    if ci_hit(queries, line) {
        let k = choose|k: int| 0 <= k < queries.len() && str_contains_ci(line, #[trigger] queries[k]);
        assert(contains_seq(
            vstd::utf8::encode_utf8(lower_of(line)),
            vstd::utf8::encode_utf8(lowered[k]),
        ));
    }
}

} // verus!
