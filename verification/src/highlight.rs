use vstd::prelude::*;

use crate::matcher::SearchError;
use crate::re::{regex_build, regex_built, regex_spans, regex_valid};
use crate::text::{fold_bytes, fold_bytes_vec, matches_at, spec_find_from, find_from};

verus! {

// --- spans and the text they cover -------------------------------------------

/// The byte positions a half-open span covers.
pub open spec fn span_points(sp: (usize, usize)) -> Set<int> {
    Set::new(|p: int| sp.0 <= p < sp.1)
}

/// The byte positions covered by any span of the list.
pub open spec fn covered(spans: Seq<(usize, usize)>) -> Set<int> {
    Set::new(
        |p: int|
            exists|k: int| 0 <= k < spans.len() && (#[trigger] spans[k]).0 <= p < spans[k].1,
    )
}

pub proof fn lemma_covered_push(spans: Seq<(usize, usize)>, sp: (usize, usize))
    ensures
        covered(spans.push(sp)) == covered(spans).union(span_points(sp)),
{
    assert forall|p: int|
        covered(spans.push(sp)).contains(p) == covered(spans).union(span_points(sp)).contains(
            p,
        ) by {
        if covered(spans.push(sp)).contains(p) {
            let k = choose|k: int|
                0 <= k < spans.push(sp).len() && (#[trigger] spans.push(sp)[k]).0 <= p < spans.push(
                    sp,
                )[k].1;
            if k < spans.len() {
                assert(spans[k] == spans.push(sp)[k]);
                assert(covered(spans).contains(p));
            } else {
                assert(spans.push(sp)[k] == sp);
            }
        }
        if covered(spans).contains(p) {
            let k = choose|k: int|
                0 <= k < spans.len() && (#[trigger] spans[k]).0 <= p < spans[k].1;
            assert(spans.push(sp)[k] == spans[k]);
            assert(covered(spans.push(sp)).contains(p));
        }
        if span_points(sp).contains(p) {
            assert(spans.push(sp)[spans.len() as int] == sp);
            assert(covered(spans.push(sp)).contains(p));
        }
    }
    assert(covered(spans.push(sp)) =~= covered(spans).union(span_points(sp)));
}

/// Two span lists with the same members cover the same text.
pub proof fn lemma_covered_same_members(s1: Seq<(usize, usize)>, s2: Seq<(usize, usize)>)
    requires
        forall|x: (usize, usize)| s1.contains(x) <==> s2.contains(x),
    ensures
        covered(s1) == covered(s2),
{
    assert forall|p: int| covered(s1).contains(p) == covered(s2).contains(p) by {
        if covered(s1).contains(p) {
            let k = choose|k: int| 0 <= k < s1.len() && (#[trigger] s1[k]).0 <= p < s1[k].1;
            assert(s1.contains(s1[k]));
            let j = choose|j: int| 0 <= j < s2.len() && s2[j] == s1[k];
            assert(covered(s2).contains(p));
        }
        if covered(s2).contains(p) {
            let k = choose|k: int| 0 <= k < s2.len() && (#[trigger] s2[k]).0 <= p < s2[k].1;
            assert(s2.contains(s2[k]));
            let j = choose|j: int| 0 <= j < s1.len() && s1[j] == s2[k];
            assert(covered(s1).contains(p));
        }
    }
    assert(covered(s1) =~= covered(s2));
}

// --- literal occurrences ------------------------------------------------------

/// The successive non-overlapping occurrences of `needle` in `hay` from
/// position `from` on, scanning left to right and resuming after each found
/// occurrence.
pub open spec fn occ_from(hay: Seq<u8>, needle: Seq<u8>, from: int) -> Seq<(usize, usize)>
    decreases hay.len() - from + 1,
{
    if needle.len() == 0 || from < 0 || from + needle.len() > hay.len() {
        Seq::empty()
    } else if matches_at(hay, needle, from) {
        seq![(from as usize, (from + needle.len()) as usize)] + occ_from(
            hay,
            needle,
            from + needle.len(),
        )
    } else {
        occ_from(hay, needle, from + 1)
    }
}

/// `occ_from` in terms of the first occurrence.
proof fn lemma_occ_from_find(hay: Seq<u8>, needle: Seq<u8>, from: int)
    requires
        0 <= from,
        needle.len() > 0,
    ensures
        occ_from(hay, needle, from) == match spec_find_from(hay, needle, from) {
            None => Seq::<(usize, usize)>::empty(),
            Some(i) => seq![(i as usize, (i + needle.len()) as usize)] + occ_from(
                hay,
                needle,
                i + needle.len(),
            ),
        },
    decreases hay.len() - from + 1,
{
    if from + needle.len() > hay.len() {
    } else if matches_at(hay, needle, from) {
    } else {
        lemma_occ_from_find(hay, needle, from + 1);
    }
}

/// The occurrence list is well formed: spans of the needle's length, in
/// ascending non-overlapping order, within the haystack.
pub proof fn lemma_occ_from_wf(hay: Seq<u8>, needle: Seq<u8>, from: int)
    requires
        hay.len() <= usize::MAX,
    ensures
        forall|k: int|
            0 <= k < occ_from(hay, needle, from).len() ==> {
                let sp = #[trigger] occ_from(hay, needle, from)[k];
                &&& from <= sp.0
                &&& sp.0 < sp.1
                &&& sp.1 == sp.0 + needle.len()
                &&& sp.1 <= hay.len()
            },
        forall|k: int|
            0 <= k < occ_from(hay, needle, from).len() - 1 ==> (#[trigger] occ_from(
                hay,
                needle,
                from,
            )[k]).1 <= occ_from(hay, needle, from)[k + 1].0,
    decreases hay.len() - from + 1,
{
    if needle.len() == 0 || from < 0 || from + needle.len() > hay.len() {
    } else if matches_at(hay, needle, from) {
        lemma_occ_from_wf(hay, needle, from + needle.len() as int);
        let tail = occ_from(hay, needle, from + needle.len() as int);
        let head = (from as usize, (from + needle.len()) as usize);
        assert(occ_from(hay, needle, from) == seq![head] + tail);
        assert forall|k: int|
            0 <= k < occ_from(hay, needle, from).len() implies {
            let sp = #[trigger] occ_from(hay, needle, from)[k];
            &&& from <= sp.0
            &&& sp.0 < sp.1
            &&& sp.1 == sp.0 + needle.len()
            &&& sp.1 <= hay.len()
        } by {
            if k > 0 {
                assert(occ_from(hay, needle, from)[k] == tail[k - 1]);
            } else {
                assert(occ_from(hay, needle, from)[0] == head);
            }
        }
        assert forall|k: int|
            0 <= k < occ_from(hay, needle, from).len() - 1 implies (#[trigger] occ_from(
            hay,
            needle,
            from,
        )[k]).1 <= occ_from(hay, needle, from)[k + 1].0 by {
            if k > 0 {
                assert(occ_from(hay, needle, from)[k] == tail[k - 1]);
                assert(occ_from(hay, needle, from)[k + 1] == tail[k]);
            } else {
                assert(occ_from(hay, needle, from)[0] == head);
                assert(occ_from(hay, needle, from)[1] == tail[0]);
            }
        }
    } else {
        lemma_occ_from_wf(hay, needle, from + 1);
        assert(occ_from(hay, needle, from) == occ_from(hay, needle, from + 1));
    }
}

/// Every occurrence span of a well-formed UTF-8 needle lies on character
/// boundaries of a valid UTF-8 haystack: a needle of whole scalars can only
/// match aligned with the haystack's scalars.
pub proof fn lemma_occ_from_boundaries(hay: Seq<u8>, needle: Seq<u8>, from: int)
    requires
        hay.len() <= usize::MAX,
        vstd::utf8::valid_utf8(hay),
        vstd::utf8::valid_utf8(needle),
    ensures
        forall|k: int|
            0 <= k < occ_from(hay, needle, from).len() ==> vstd::utf8::is_char_boundary(
                hay,
                (#[trigger] occ_from(hay, needle, from)[k]).0 as int,
            ) && vstd::utf8::is_char_boundary(hay, occ_from(hay, needle, from)[k].1 as int),
    decreases hay.len() - from + 1,
{
    if needle.len() == 0 || from < 0 || from + needle.len() > hay.len() {
    } else if matches_at(hay, needle, from) {
        lemma_occ_from_boundaries(hay, needle, from + needle.len() as int);
        let tail = occ_from(hay, needle, from + needle.len() as int);
        let head = (from as usize, (from + needle.len()) as usize);
        assert(occ_from(hay, needle, from) == seq![head] + tail);
        assert(hay.subrange(from, from + needle.len())[0] == hay[from]);
        crate::text::lemma_lead_byte_not_continuation(needle);
        crate::text::lemma_non_continuation_is_boundary(hay, from);
        crate::text::lemma_match_end_boundary(hay, needle, from);
        assert forall|k: int|
            0 <= k < occ_from(hay, needle, from).len() implies vstd::utf8::is_char_boundary(
            hay,
            (#[trigger] occ_from(hay, needle, from)[k]).0 as int,
        ) && vstd::utf8::is_char_boundary(hay, occ_from(hay, needle, from)[k].1 as int) by {
            if k > 0 {
                assert(occ_from(hay, needle, from)[k] == tail[k - 1]);
            } else {
                assert(occ_from(hay, needle, from)[0] == head);
            }
        }
    } else {
        lemma_occ_from_boundaries(hay, needle, from + 1);
        assert(occ_from(hay, needle, from) == occ_from(hay, needle, from + 1));
    }
}

/// Append the occurrences of `needle` in `hay` from position `from` on.
fn collect_occurrences(hay: &[u8], needle: &[u8], from: usize, r: &mut Vec<(usize, usize)>)
    requires
        needle@.len() > 0,
    ensures
        final(r)@ == old(r)@ + occ_from(hay@, needle@, from as int),
    decreases hay@.len() - from + 1,
{
    let hl = hay.len();
    proof {
        lemma_occ_from_find(hay@, needle@, from as int);
        crate::text::lemma_find_from(hay@, needle@, from as int);
        assert(hl == hay@.len());
    }
    match find_from(hay, needle, from) {
        None => {
            proof {
                assert(r@ + occ_from(hay@, needle@, from as int) =~= r@);
            }
        },
        Some(i) => {
            proof {
                assert(i + needle@.len() <= hl);
            }
            let ghost pre = r@;
            r.push((i, i + needle.len()));
            collect_occurrences(hay, needle, i + needle.len(), r);
            proof {
                assert(pre.push((i, (i + needle@.len()) as usize)) =~= pre + seq![
                    (i, (i + needle@.len()) as usize),
                ]);
                assert(pre + occ_from(hay@, needle@, from as int) =~= (pre + seq![
                    (i, (i + needle@.len()) as usize),
                ]) + occ_from(hay@, needle@, i + needle@.len()));
            }
        },
    }
}

// --- sorting and merging ------------------------------------------------------

pub open spec fn sorted_by_start(s: Seq<(usize, usize)>) -> bool {
    forall|x: int, y: int| 0 <= x < y < s.len() ==> (#[trigger] s[x]).0 <= (#[trigger] s[y]).0
}

/// Membership in a sequence with one element inserted.
proof fn lemma_insert_contains(s: Seq<(usize, usize)>, p: int, x: (usize, usize), y: (usize, usize))
    requires
        0 <= p <= s.len(),
    ensures
        s.insert(p, x).contains(y) <==> (s.contains(y) || y == x),
{
    s.insert_ensures(p, x);
    let t = s.insert(p, x);
    if t.contains(y) {
        let k = choose|k: int| 0 <= k < t.len() && t[k] == y;
        if k < p {
            assert(s[k] == y);
        } else if k == p {
        } else {
            assert(t[(k - 1) + 1] == s[k - 1]);
        }
    }
    if s.contains(y) {
        let k = choose|k: int| 0 <= k < s.len() && s[k] == y;
        if k < p {
            assert(t[k] == y);
        } else {
            assert(t[k + 1] == y);
        }
    }
    if y == x {
        assert(t[p] == y);
    }
}

/// Stable ordering of spans by start offset.
fn sort_by_start(v: Vec<(usize, usize)>) -> (r: Vec<(usize, usize)>)
    ensures
        sorted_by_start(r@),
        forall|x: (usize, usize)| r@.contains(x) <==> v@.contains(x),
{
    let mut r: Vec<(usize, usize)> = Vec::new();
    let mut i: usize = 0;
    while i < v.len()
        invariant
            i <= v@.len(),
            sorted_by_start(r@),
            forall|x: (usize, usize)| r@.contains(x) <==> v@.take(i as int).contains(x),
        decreases v@.len() - i,
    {
        let x = v[i];
        let mut p: usize = 0;
        while p < r.len() && r[p].0 <= x.0
            invariant
                p <= r@.len(),
                forall|q: int| 0 <= q < p ==> (#[trigger] r@[q]).0 <= x.0,
            decreases r@.len() - p,
        {
            p = p + 1;
        }
        let ghost rpre = r@;
        r.insert(p, x);
        proof {
            rpre.insert_ensures(p as int, x);
            assert forall|a: int, b: int| 0 <= a < b < r@.len() implies (#[trigger] r@[a]).0
                <= (#[trigger] r@[b]).0 by {
                if b < p {
                } else if a < p && b == p {
                } else if a < p {
                    assert(r@[b] == rpre[b - 1]);
                } else if a == p {
                    assert(r@[b] == rpre[b - 1]);
                    assert(rpre[p as int].0 > x.0 || p as int == rpre.len());
                    assert(rpre[p as int].0 <= rpre[b - 1].0);
                } else {
                    assert(r@[a] == rpre[a - 1]);
                    assert(r@[b] == rpre[b - 1]);
                }
            }
            assert(v@.take(i + 1) =~= v@.take(i as int).push(x));
            assert forall|y: (usize, usize)| r@.contains(y) <==> v@.take(i + 1).contains(y) by {
                lemma_insert_contains(rpre, p as int, x, y);
                crate::context::lemma_concat_contains(v@.take(i as int), seq![x], y);
                assert(v@.take(i as int) + seq![x] =~= v@.take(i + 1));
                if y == x {
                    assert(seq![x][0] == y);
                }
                if seq![x].contains(y) {
                    assert(seq![x][0] == x);
                }
            }
        }
        i = i + 1;
    }
    proof {
        assert(v@.take(v@.len() as int) =~= v@);
    }
    r
}

/// Merged spans are non-empty, ascending, and pairwise separated.
pub open spec fn merged_wf(s: Seq<(usize, usize)>) -> bool {
    &&& forall|k: int| 0 <= k < s.len() ==> (#[trigger] s[k]).0 < s[k].1
    &&& forall|k: int| 0 <= k < s.len() - 1 ==> (#[trigger] s[k]).1 < s[k + 1].0
}

/// Merge a list of spans sorted by start: overlapping or touching spans fuse,
/// empty spans vanish, and exactly the covered text is kept.
#[verifier::rlimit(100)]
fn merge_spans(v: &Vec<(usize, usize)>) -> (r: Vec<(usize, usize)>)
    requires
        sorted_by_start(v@),
        forall|k: int| 0 <= k < v@.len() ==> (#[trigger] v@[k]).0 <= v@[k].1,
    ensures
        merged_wf(r@),
        covered(r@) == covered(v@),
        forall|k: int|
            0 <= k < r@.len() ==> exists|j: int|
                0 <= j < v@.len() && (#[trigger] r@[k]).0 == (#[trigger] v@[j]).0,
        forall|k: int|
            0 <= k < r@.len() ==> exists|j: int|
                0 <= j < v@.len() && (#[trigger] r@[k]).1 == (#[trigger] v@[j]).1,
{
    let mut r: Vec<(usize, usize)> = Vec::new();
    proof {
        assert(covered(r@) =~= covered(v@.take(0)));
    }
    let mut i: usize = 0;
    while i < v.len()
        invariant
            i <= v@.len(),
            sorted_by_start(v@),
            forall|k: int| 0 <= k < v@.len() ==> (#[trigger] v@[k]).0 <= v@[k].1,
            merged_wf(r@),
            covered(r@) == covered(v@.take(i as int)),
            r@.len() > 0 ==> i > 0 && r@.last().0 <= v@[i - 1].0,
            forall|k: int|
                0 <= k < r@.len() ==> exists|j: int|
                    0 <= j < i && (#[trigger] r@[k]).0 == (#[trigger] v@[j]).0,
            forall|k: int|
                0 <= k < r@.len() ==> exists|j: int|
                    0 <= j < i && (#[trigger] r@[k]).1 == (#[trigger] v@[j]).1,
        decreases v@.len() - i,
    {
        let x = v[i];
        proof {
            assert(v@.take(i + 1) =~= v@.take(i as int).push(x));
            lemma_covered_push(v@.take(i as int), x);
        }
        if x.0 == x.1 {
            proof {
                assert(span_points(x) =~= Set::<int>::empty());
                assert(covered(r@) =~= covered(v@.take(i as int)).union(span_points(x)));
            }
        } else if r.len() == 0 {
            let ghost rpre = r@;
            r.push(x);
            proof {
                lemma_covered_push(rpre, x);
                assert(covered(rpre) =~= Set::<int>::empty());
                assert(covered(r@) =~= covered(v@.take(i as int)).union(span_points(x)));
            }
        } else {
            let last = r[r.len() - 1];
            if x.0 > last.1 {
                let ghost rpre = r@;
                r.push(x);
                proof {
                    lemma_covered_push(rpre, x);
                    assert forall|k: int| 0 <= k < r@.len() - 1 implies (#[trigger] r@[k]).1
                        < r@[k + 1].0 by {
                        assert(r@[k] == rpre[k]);
                        if k + 1 < r@.len() - 1 {
                            assert(r@[k + 1] == rpre[k + 1]);
                        }
                    }
                }
            } else {
                let newend = if x.1 > last.1 {
                    x.1
                } else {
                    last.1
                };
                let ghost rpre = r@;
                let _dropped = r.pop();
                r.push((last.0, newend));
                proof {
                    let dl = rpre.drop_last();
                    assert(last == rpre.last());
                    assert(r@ == dl.push((last.0, newend)));
                    assert(rpre =~= dl.push(last));
                    lemma_covered_push(dl, last);
                    lemma_covered_push(dl, (last.0, newend));
                    // the widened last span covers exactly the old last plus x
                    assert(last.0 <= v@[i - 1].0);
                    assert(v@[i - 1].0 <= x.0);
                    assert(span_points((last.0, newend)) =~= span_points(last).union(
                        span_points(x),
                    ));
                    assert(covered(r@) =~= covered(v@.take(i as int)).union(span_points(x)));
                    assert forall|k: int| 0 <= k < r@.len() - 1 implies (#[trigger] r@[k]).1
                        < r@[k + 1].0 by {
                        assert(r@[k] == rpre[k]);
                        if k + 1 < r@.len() - 1 {
                            assert(r@[k + 1] == rpre[k + 1]);
                        }
                    }
                }
            }
        }
        i = i + 1;
    }
    proof {
        assert(v@.take(v@.len() as int) =~= v@);
    }
    r
}

// --- the highlighter ----------------------------------------------------------

/// The raw occurrence spans of each literal needle in `hay`, concatenated in
/// query order.
pub open spec fn lit_raw_spans(needles: Seq<Seq<u8>>, hay: Seq<u8>) -> Seq<(usize, usize)>
    decreases needles.len(),
{
    if needles.len() == 0 {
        Seq::empty()
    } else {
        lit_raw_spans(needles.drop_last(), hay) + occ_from(hay, needles.last(), 0)
    }
}

/// The raw regex match spans of each pattern over `line`, concatenated in
/// query order.
pub open spec fn re_raw_spans(pats: Seq<Seq<char>>, ci: bool, line: Seq<char>) -> Seq<
    (usize, usize),
>
    decreases pats.len(),
{
    if pats.len() == 0 {
        Seq::empty()
    } else {
        re_raw_spans(pats.drop_last(), ci, line) + regex_spans(pats.last(), ci, line)
    }
}

/// How occurrences are found: literal needles (pre-folded when case is
/// ignored) or compiled regexes.
pub enum HighlightPatterns {
    Literal(Vec<Vec<u8>>),
    Regex(Vec<(String, regex::Regex)>),
}

/// Computes the emphasis spans of a line, constructed once per run.
pub struct Highlighter {
    pub patterns: HighlightPatterns,
    pub ignore_case: bool,
}

impl Highlighter {
    pub open spec fn wf(&self) -> bool {
        match self.patterns {
            HighlightPatterns::Regex(rs) => forall|k: int|
                0 <= k < rs@.len() ==> regex_built(
                    (#[trigger] rs@[k]).1,
                    rs@[k].0@,
                    self.ignore_case,
                ),
            HighlightPatterns::Literal(ns) => forall|k: int|
                0 <= k < ns@.len() ==> vstd::utf8::valid_utf8((#[trigger] ns@[k])@),
        }
    }

    /// The bytes the literal scan runs over: the line's bytes, case-folded
    /// when case is ignored. The fold is deliberately ASCII-only: the spans
    /// index the untouched original line, so the fold must keep every byte
    /// offset, which Unicode lowercasing does not. Emphasis in
    /// case-insensitive mode is therefore ASCII-case-insensitive, while the
    /// matcher itself lowercases with the full Unicode mapping.
    pub open spec fn spec_hay(&self, line: Seq<char>) -> Seq<u8> {
        if self.ignore_case {
            fold_bytes(vstd::utf8::encode_utf8(line))
        } else {
            vstd::utf8::encode_utf8(line)
        }
    }

    /// All raw per-query occurrence spans of a line, before merging.
    pub open spec fn raw_spans(&self, line: Seq<char>) -> Seq<(usize, usize)> {
        match self.patterns {
            HighlightPatterns::Literal(ns) => lit_raw_spans(ns.deep_view(), self.spec_hay(line)),
            HighlightPatterns::Regex(rs) => re_raw_spans(
                rs@.map_values(|p: (String, regex::Regex)| p.0@),
                self.ignore_case,
                line,
            ),
        }
    }

    /// Build a highlighter. In regex mode every query must compile (with the
    /// requested case handling); the error carries a query that does not.
    pub fn new(queries: &Vec<String>, use_regex: bool, ignore_case: bool) -> (r: Result<
        Highlighter,
        SearchError,
    >)
        ensures
            r is Ok <==> (!use_regex || forall|k: int|
                0 <= k < queries@.len() ==> regex_valid((#[trigger] queries@[k])@, ignore_case)),
            r matches Ok(h) ==> {
                &&& h.wf()
                &&& h.ignore_case == ignore_case
                &&& if use_regex {
                    h.patterns matches HighlightPatterns::Regex(rs) && rs@.map_values(
                        |p: (String, regex::Regex)| p.0@,
                    ) == queries.deep_view()
                } else {
                    h.patterns matches HighlightPatterns::Literal(ns) && ns.deep_view().len()
                        == queries@.len() && forall|k: int|
                        0 <= k < queries@.len() ==> #[trigger] ns.deep_view()[k] == (
                        if ignore_case {
                            fold_bytes(vstd::utf8::encode_utf8(queries@[k]@))
                        } else {
                            vstd::utf8::encode_utf8(queries@[k]@)
                        })
                }
            },
            r matches Err(e) ==> use_regex && (e matches SearchError::InvalidPattern(p) && (exists|
                k: int,
            |
                0 <= k < queries@.len() && (#[trigger] queries@[k])@ == p@ && !regex_valid(
                    p@,
                    ignore_case,
                ))),
    {
        if use_regex {
            let mut rs: Vec<(String, regex::Regex)> = Vec::new();
            let mut k: usize = 0;
            while k < queries.len()
                invariant
                    use_regex,
                    k <= queries@.len(),
                    rs@.len() == k,
                    forall|j: int|
                        0 <= j < k ==> regex_built(
                            (#[trigger] rs@[j]).1,
                            rs@[j].0@,
                            ignore_case,
                        ),
                    forall|j: int| 0 <= j < k ==> (#[trigger] rs@[j]).0@ == queries@[j]@,
                    forall|j: int|
                        0 <= j < k ==> regex_valid((#[trigger] queries@[j])@, ignore_case),
                decreases queries@.len() - k,
            {
                let q = &queries[k];
                match regex_build(q.as_str(), ignore_case) {
                    Ok(re) => {
                        rs.push((q.clone(), re));
                    },
                    Err(_) => {
                        proof {
                            assert(!regex_valid(queries@[k as int]@, ignore_case));
                        }
                        return Err(SearchError::InvalidPattern(q.clone()));
                    },
                }
                k = k + 1;
            }
            let h = Highlighter { patterns: HighlightPatterns::Regex(rs), ignore_case };
            proof {
                assert(h.patterns->Regex_0@.map_values(|p: (String, regex::Regex)| p.0@)
                    =~= queries.deep_view());
            }
            Ok(h)
        } else {
            let mut ns: Vec<Vec<u8>> = Vec::new();
            let mut k: usize = 0;
            while k < queries.len()
                invariant
                    k <= queries@.len(),
                    ns@.len() == k,
                    forall|j: int|
                        0 <= j < k ==> (#[trigger] ns@[j])@ == (if ignore_case {
                            fold_bytes(vstd::utf8::encode_utf8(queries@[j]@))
                        } else {
                            vstd::utf8::encode_utf8(queries@[j]@)
                        }),
                decreases queries@.len() - k,
            {
                if ignore_case {
                    ns.push(fold_bytes_vec(queries[k].as_str().as_bytes()));
                } else {
                    ns.push(vstd::slice::slice_to_vec(queries[k].as_str().as_bytes()));
                }
                k = k + 1;
            }
            let h = Highlighter { patterns: HighlightPatterns::Literal(ns), ignore_case };
            proof {
                assert forall|j: int| 0 <= j < ns@.len() implies vstd::utf8::valid_utf8(
                    (#[trigger] ns@[j])@,
                ) by {
                    vstd::utf8::encode_utf8_valid_utf8(queries@[j]@);
                    if ignore_case {
                        crate::text::lemma_fold_preserves_utf8(
                            vstd::utf8::encode_utf8(queries@[j]@),
                        );
                    }
                }
            }
            Ok(h)
        }
    }

    /// The merged emphasis spans of one line: ascending, disjoint, non-empty
    /// byte ranges covering exactly the text of all raw per-query occurrences.
    pub fn highlight(&self, line: &str) -> (spans: Vec<(usize, usize)>)
        requires
            self.wf(),
        ensures
            merged_wf(spans@),
            covered(spans@) == covered(self.raw_spans(line@)),
            forall|k: int|
                0 <= k < spans@.len() ==> (#[trigger] spans@[k]).1 <= vstd::utf8::encode_utf8(
                    line@,
                ).len(),
            forall|k: int|
                0 <= k < spans@.len() ==> vstd::utf8::is_char_boundary(
                    vstd::utf8::encode_utf8(line@),
                    (#[trigger] spans@[k]).0 as int,
                ) && vstd::utf8::is_char_boundary(
                    vstd::utf8::encode_utf8(line@),
                    spans@[k].1 as int,
                ),
    {
        let ghost orig = vstd::utf8::encode_utf8(line@);
        proof {
            vstd::utf8::encode_utf8_valid_utf8(line@);
        }
        let ghost bound = vstd::utf8::encode_utf8(line@).len() as int;
        let mut acc: Vec<(usize, usize)> = Vec::new();
        match &self.patterns {
            HighlightPatterns::Literal(ns) => {
                let hay: Vec<u8> = if self.ignore_case {
                    fold_bytes_vec(line.as_bytes())
                } else {
                    vstd::slice::slice_to_vec(line.as_bytes())
                };
                let hb = hay.len();
                proof {
                    assert(hay@ == self.spec_hay(line@));
                    assert(hb == hay@.len());
                    assert(hay@.len() == bound);
                    assert(lit_raw_spans(ns.deep_view().take(0), hay@) =~= Seq::empty());
                    assert(acc@ =~= lit_raw_spans(ns.deep_view().take(0), hay@));
                }
                let mut k: usize = 0;
                while k < ns.len()
                    invariant
                        k <= ns@.len(),
                        hb == hay@.len(),
                        hay@.len() == bound,
                        self.wf(),
                        self.patterns matches HighlightPatterns::Literal(v) && v@ == ns@,
                        orig == vstd::utf8::encode_utf8(line@),
                        vstd::utf8::valid_utf8(orig),
                        hay@ == self.spec_hay(line@),
                        acc@ == lit_raw_spans(ns.deep_view().take(k as int), hay@),
                        forall|j: int|
                            0 <= j < acc@.len() ==> (#[trigger] acc@[j]).0 <= acc@[j].1
                                <= bound,
                        forall|j: int|
                            0 <= j < acc@.len() ==> vstd::utf8::is_char_boundary(
                                orig,
                                (#[trigger] acc@[j]).0 as int,
                            ) && vstd::utf8::is_char_boundary(orig, acc@[j].1 as int),
                    decreases ns@.len() - k,
                {
                    let ghost pre = acc@;
                    if ns[k].len() > 0 {
                        collect_occurrences(hay.as_slice(), ns[k].as_slice(), 0, &mut acc);
                    } else {
                        proof {
                            assert(occ_from(hay@, ns@[k as int]@, 0) =~= Seq::empty());
                            assert(acc@ =~= pre + occ_from(hay@, ns@[k as int]@, 0));
                        }
                    }
                    proof {
                        lemma_occ_from_wf(hay@, ns@[k as int]@, 0);
                        if self.ignore_case {
                            crate::text::lemma_fold_preserves_utf8(orig);
                        }
                        lemma_occ_from_boundaries(hay@, ns@[k as int]@, 0);
                        assert(ns.deep_view().take(k + 1).drop_last() =~= ns.deep_view().take(
                            k as int,
                        ));
                        assert(ns.deep_view().take(k + 1).last() == ns@[k as int]@);
                        assert(acc@ == lit_raw_spans(ns.deep_view().take(k + 1), hay@));
                        assert forall|j: int|
                            0 <= j < acc@.len() implies (#[trigger] acc@[j]).0 <= acc@[j].1
                            <= bound by {
                            if j >= pre.len() {
                                assert(acc@[j] == occ_from(hay@, ns@[k as int]@, 0)[j - pre.len()]);
                            }
                        }
                        assert forall|j: int|
                            0 <= j < acc@.len() implies vstd::utf8::is_char_boundary(
                            orig,
                            (#[trigger] acc@[j]).0 as int,
                        ) && vstd::utf8::is_char_boundary(orig, acc@[j].1 as int) by {
                            if j >= pre.len() {
                                assert(acc@[j] == occ_from(hay@, ns@[k as int]@, 0)[j - pre.len()]);
                                assert(vstd::utf8::is_char_boundary(hay@, acc@[j].0 as int));
                                assert(vstd::utf8::is_char_boundary(hay@, acc@[j].1 as int));
                            }
                        }
                    }
                    k = k + 1;
                }
                proof {
                    assert(ns.deep_view().take(ns@.len() as int) =~= ns.deep_view());
                }
            },
            HighlightPatterns::Regex(rs) => {
                let ghost pats = rs@.map_values(|p: (String, regex::Regex)| p.0@);
                proof {
                    assert(re_raw_spans(pats.take(0), self.ignore_case, line@) =~= Seq::empty());
                }
                let mut k: usize = 0;
                while k < rs.len()
                    invariant
                        k <= rs@.len(),
                        self.wf(),
                        self.patterns matches HighlightPatterns::Regex(v) && v@ == rs@,
                        pats == rs@.map_values(|p: (String, regex::Regex)| p.0@),
                        bound == vstd::utf8::encode_utf8(line@).len(),
                        orig == vstd::utf8::encode_utf8(line@),
                        acc@ == re_raw_spans(pats.take(k as int), self.ignore_case, line@),
                        forall|j: int|
                            0 <= j < acc@.len() ==> (#[trigger] acc@[j]).0 <= acc@[j].1
                                <= bound,
                        forall|j: int|
                            0 <= j < acc@.len() ==> vstd::utf8::is_char_boundary(
                                orig,
                                (#[trigger] acc@[j]).0 as int,
                            ) && vstd::utf8::is_char_boundary(orig, acc@[j].1 as int),
                    decreases rs@.len() - k,
                {
                    let ghost pre = acc@;
                    let pair = &rs[k];
                    let mut sp = crate::re::regex_find_spans(&pair.1, line);
                    proof {
                        assert(regex_built(rs@[k as int].1, rs@[k as int].0@, self.ignore_case));
                        assert(sp@ == regex_spans(pats[k as int], self.ignore_case, line@));
                    }
                    let ghost spv = sp@;
                    acc.append(&mut sp);
                    proof {
                        assert(pats.take(k + 1).drop_last() =~= pats.take(k as int));
                        assert(pats.take(k + 1).last() == pats[k as int]);
                        assert(acc@ == re_raw_spans(pats.take(k + 1), self.ignore_case, line@));
                        assert forall|j: int|
                            0 <= j < acc@.len() implies (#[trigger] acc@[j]).0 <= acc@[j].1
                            <= bound by {
                            if j >= pre.len() {
                                assert(acc@[j] == spv[j - pre.len()]);
                            }
                        }
                        assert forall|j: int|
                            0 <= j < acc@.len() implies vstd::utf8::is_char_boundary(
                            orig,
                            (#[trigger] acc@[j]).0 as int,
                        ) && vstd::utf8::is_char_boundary(orig, acc@[j].1 as int) by {
                            if j >= pre.len() {
                                assert(acc@[j] == spv[j - pre.len()]);
                            }
                        }
                    }
                    k = k + 1;
                }
                proof {
                    assert(pats.take(rs@.len() as int) =~= pats);
                }
            },
        }
        let ghost accv = acc@;
        let sorted = sort_by_start(acc);
        proof {
            lemma_covered_same_members(sorted@, accv);
            assert forall|j: int|
                0 <= j < sorted@.len() implies (#[trigger] sorted@[j]).0 <= sorted@[j].1 <= bound
                && vstd::utf8::is_char_boundary(orig, sorted@[j].0 as int)
                && vstd::utf8::is_char_boundary(orig, sorted@[j].1 as int) by {
                assert(sorted@.contains(sorted@[j]));
                let i = choose|i: int| 0 <= i < accv.len() && accv[i] == sorted@[j];
            }
        }
        let merged = merge_spans(&sorted);
        proof {
            assert forall|k: int| 0 <= k < merged@.len() implies (#[trigger] merged@[k]).1
                <= bound by {
                let p = merged@[k].1 - 1;
                assert(covered(merged@).contains(p));
                assert(covered(sorted@).contains(p));
                let j = choose|j: int|
                    0 <= j < sorted@.len() && (#[trigger] sorted@[j]).0 <= p < sorted@[j].1;
            }
            assert forall|k: int|
                0 <= k < merged@.len() implies vstd::utf8::is_char_boundary(
                orig,
                (#[trigger] merged@[k]).0 as int,
            ) && vstd::utf8::is_char_boundary(orig, merged@[k].1 as int) by {
                let j0 = choose|j: int|
                    0 <= j < sorted@.len() && merged@[k].0 == sorted@[j].0;
                let j1 = choose|j: int|
                    0 <= j < sorted@.len() && merged@[k].1 == sorted@[j].1;
            }
        }
        merged
    }
}

} // verus!
