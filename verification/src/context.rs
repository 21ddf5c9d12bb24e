use vstd::prelude::*;

verus! {

// --- context sizes ----------------------------------------------------------

/// The three context counts: a symmetric count that, when non-zero, overrides
/// the after and before counts.
pub struct ContextSpec {
    pub context: usize,
    pub after: usize,
    pub before: usize,
}

impl ContextSpec {
    /// No context at all: only matched lines are displayed.
    pub open spec fn is_zero(&self) -> bool {
        self.context == 0 && self.after == 0 && self.before == 0
    }

    /// Some context is requested.
    pub fn any(&self) -> (r: bool)
        ensures
            r == !self.is_zero(),
    {
        self.context != 0 || self.after != 0 || self.before != 0
    }
}

/// Effective number of context lines before a match.
pub open spec fn eff_before(cs: ContextSpec) -> int {
    if cs.context > 0 {
        cs.context as int
    } else {
        cs.before as int
    }
}

/// Effective number of context lines after a match.
pub open spec fn eff_after(cs: ContextSpec) -> int {
    if cs.context > 0 {
        cs.context as int
    } else {
        cs.after as int
    }
}

// --- the display set --------------------------------------------------------

/// `j` lies in the clamped context window of one of the first `m` matches.
pub open spec fn in_window_upto(
    matches: Seq<usize>,
    m: int,
    line_count: int,
    b: int,
    a: int,
    j: int,
) -> bool {
    exists|k: int|
        0 <= k < m && (#[trigger] matches[k]) - b <= j <= matches[k] + a && 0 <= j < line_count
}

/// `j` lies in the clamped context window of some match.
pub open spec fn in_window(matches: Seq<usize>, line_count: int, b: int, a: int, j: int) -> bool {
    in_window_upto(matches, matches.len() as int, line_count, b, a, j)
}

pub open spec fn strictly_ascending(s: Seq<usize>) -> bool {
    forall|x: int, y: int| 0 <= x < y < s.len() ==> s[x] < s[y]
}

/// Lower edge of the context window of a match at line `i`, clamped at zero.
pub open spec fn win_lo(i: int, b: int) -> int {
    if i - b >= 0 {
        i - b
    } else {
        0
    }
}

/// Upper edge of the context window of a match at line `i`, clamped at the
/// last line.
pub open spec fn win_hi(i: int, a: int, line_count: int) -> int {
    if i + a <= line_count - 1 {
        i + a
    } else {
        line_count - 1
    }
}

/// Taking one more match into account adds exactly its clamped window.
pub proof fn lemma_in_window_step(
    matches: Seq<usize>,
    m: int,
    line_count: int,
    b: int,
    a: int,
    j: int,
)
    requires
        0 <= m < matches.len(),
        b >= 0,
        a >= 0,
    ensures
        in_window_upto(matches, m + 1, line_count, b, a, j) <==> (in_window_upto(
            matches,
            m,
            line_count,
            b,
            a,
            j,
        ) || (win_lo(matches[m] as int, b) <= j <= win_hi(matches[m] as int, a, line_count) && 0
            <= j < line_count)),
{
    if in_window_upto(matches, m + 1, line_count, b, a, j) {
        let k = choose|k: int|
            0 <= k < m + 1 && (#[trigger] matches[k]) - b <= j <= matches[k] + a && 0 <= j
                < line_count;
        if k < m {
            assert(in_window_upto(matches, m, line_count, b, a, j));
        }
    }
    if in_window_upto(matches, m, line_count, b, a, j) {
        let k = choose|k: int|
            0 <= k < m && (#[trigger] matches[k]) - b <= j <= matches[k] + a && 0 <= j
                < line_count;
        assert(0 <= k < m + 1 && matches[k] - b <= j <= matches[k] + a && 0 <= j < line_count);
    }
    if win_lo(matches[m] as int, b) <= j <= win_hi(matches[m] as int, a, line_count) && 0 <= j
        < line_count {
        assert(0 <= m < m + 1 && matches[m] - b <= j <= matches[m] + a && 0 <= j < line_count);
    }
}

/// The sequence `lo, lo+1, ..., hi` (empty when `lo > hi`).
pub open spec fn range_seq(lo: int, hi: int) -> Seq<usize>
    decreases hi - lo + 1,
{
    if lo > hi || lo < 0 {
        Seq::empty()
    } else {
        seq![lo as usize] + range_seq(lo + 1, hi)
    }
}

/// A one-element range is a singleton.
pub proof fn lemma_range_seq_singleton(x: int)
    requires
        0 <= x <= usize::MAX,
    ensures
        range_seq(x, x) == seq![x as usize],
{
    assert(range_seq(x + 1, x) =~= Seq::<usize>::empty());
    assert(range_seq(x, x) =~= seq![x as usize]);
}

pub proof fn lemma_range_seq(lo: int, hi: int)
    requires
        0 <= lo,
        hi <= usize::MAX,
    ensures
        range_seq(lo, hi).len() == if lo <= hi {
            hi - lo + 1
        } else {
            0
        },
        forall|k: int| 0 <= k < range_seq(lo, hi).len() ==> range_seq(lo, hi)[k] == lo + k,
    decreases hi - lo + 1,
{
    if lo > hi {
    } else {
        lemma_range_seq(lo + 1, hi);
        assert(range_seq(lo, hi) == seq![lo as usize] + range_seq(lo + 1, hi));
        assert forall|k: int| 0 <= k < range_seq(lo, hi).len() implies range_seq(lo, hi)[k] == lo
            + k by {
            if k > 0 {
                assert(range_seq(lo, hi)[k] == range_seq(lo + 1, hi)[k - 1]);
            } else {
                assert(range_seq(lo, hi)[0] == (seq![lo as usize] + range_seq(lo + 1, hi))[0]);
            }
        }
    }
}

/// Appending the next integer extends a range by one.
pub proof fn lemma_range_seq_push(lo: int, hi: int)
    requires
        0 <= lo <= hi,
        hi <= usize::MAX,
    ensures
        range_seq(lo, hi) == range_seq(lo, hi - 1).push(hi as usize),
    decreases hi - lo,
{
    if lo == hi {
        lemma_range_seq_singleton(lo);
        assert(range_seq(lo, hi - 1) =~= Seq::<usize>::empty());
        assert(range_seq(lo, hi) =~= range_seq(lo, hi - 1).push(hi as usize));
    } else {
        lemma_range_seq_push(lo + 1, hi);
        assert(range_seq(lo, hi - 1) == seq![lo as usize] + range_seq(lo + 1, hi - 1));
        assert(range_seq(lo, hi) =~= range_seq(lo, hi - 1).push(hi as usize));
    }
}

/// Membership in a range is the obvious interval condition.
pub proof fn lemma_range_seq_contains(lo: int, hi: int, x: usize)
    requires
        0 <= lo,
        hi <= usize::MAX,
    ensures
        range_seq(lo, hi).contains(x) <==> lo <= x <= hi,
{
    lemma_range_seq(lo, hi);
    if lo <= x <= hi {
        assert(range_seq(lo, hi)[x - lo] == x);
    }
}

/// Membership in a concatenation.
pub proof fn lemma_concat_contains<T>(s1: Seq<T>, s2: Seq<T>, x: T)
    ensures
        (s1 + s2).contains(x) <==> s1.contains(x) || s2.contains(x),
{
    if s1.contains(x) {
        let k = choose|k: int| 0 <= k < s1.len() && s1[k] == x;
        assert((s1 + s2)[k] == x);
    }
    if s2.contains(x) {
        let k = choose|k: int| 0 <= k < s2.len() && s2[k] == x;
        assert((s1 + s2)[s1.len() + k] == x);
    }
    if (s1 + s2).contains(x) {
        let k = choose|k: int| 0 <= k < (s1 + s2).len() && (s1 + s2)[k] == x;
        if k < s1.len() {
            assert(s1[k] == x);
        } else {
            assert(s2[k - s1.len()] == x);
        }
    }
}

// --- blocks -----------------------------------------------------------------

/// The line indices covered by a sequence of inclusive blocks, in order.
pub open spec fn block_elems(bs: Seq<(usize, usize)>) -> Seq<usize>
    decreases bs.len(),
{
    if bs.len() == 0 {
        Seq::empty()
    } else {
        block_elems(bs.drop_last()) + range_seq(bs.last().0 as int, bs.last().1 as int)
    }
}

pub proof fn lemma_block_elems_push(bs: Seq<(usize, usize)>, p: (usize, usize))
    ensures
        block_elems(bs.push(p)) == block_elems(bs) + range_seq(p.0 as int, p.1 as int),
{
    assert(bs.push(p).drop_last() =~= bs);
    assert(bs.push(p).last() == p);
}

/// Blocks are well formed: non-empty intervals, within the line count, with a
/// gap of at least one undisplayed line between consecutive blocks.
pub open spec fn blocks_wf(bs: Seq<(usize, usize)>, line_count: int) -> bool {
    &&& forall|k: int| 0 <= k < bs.len() ==> (#[trigger] bs[k]).0 <= bs[k].1 < line_count
    &&& forall|k: int| 0 <= k < bs.len() - 1 ==> (#[trigger] bs[k]).1 + 1 < bs[k + 1].0
}

/// Group an ascending display sequence into maximal contiguous blocks.
pub fn blocks_of(display: &Vec<usize>, line_count: usize) -> (blocks: Vec<(usize, usize)>)
    requires
        strictly_ascending(display@),
        forall|k: int| 0 <= k < display@.len() ==> display@[k] < line_count,
    ensures
        block_elems(blocks@) == display@,
        blocks_wf(blocks@, line_count as int),
{
    let mut blocks: Vec<(usize, usize)> = Vec::new();
    if display.len() == 0 {
        proof {
            assert(block_elems(blocks@) =~= display@);
        }
        return blocks;
    }
    let mut lo_b = display[0];
    let mut hi_b = display[0];
    let mut k: usize = 1;
    proof {
        lemma_range_seq_singleton(lo_b as int);
        assert(block_elems(blocks@) + range_seq(lo_b as int, hi_b as int) =~= display@.take(1));
    }
    while k < display.len()
        invariant
            1 <= k <= display@.len(),
            strictly_ascending(display@),
            forall|i: int| 0 <= i < display@.len() ==> display@[i] < line_count,
            lo_b <= hi_b < line_count,
            hi_b == display@[k - 1],
            block_elems(blocks@) + range_seq(lo_b as int, hi_b as int) == display@.take(k as int),
            blocks_wf(blocks@, line_count as int),
            blocks@.len() > 0 ==> blocks@.last().1 + 1 < lo_b,
        decreases display@.len() - k,
    {
        let d = display[k];
        proof {
            assert(display@[k - 1] < display@[k as int]);
        }
        if d == hi_b + 1 {
            proof {
                lemma_range_seq_push(lo_b as int, d as int);
                assert(display@.take(k as int).push(d) =~= display@.take(k + 1));
                assert(block_elems(blocks@) + range_seq(lo_b as int, d as int) =~= (block_elems(
                    blocks@,
                ) + range_seq(lo_b as int, hi_b as int)).push(d));
            }
            hi_b = d;
        } else {
            let ghost bpre = blocks@;
            blocks.push((lo_b, hi_b));
            proof {
                lemma_block_elems_push(bpre, (lo_b, hi_b));
                assert(block_elems(blocks@) =~= block_elems(bpre) + range_seq(
                    lo_b as int,
                    hi_b as int,
                ));
                lemma_range_seq_singleton(d as int);
                assert(block_elems(blocks@) + seq![d] =~= display@.take(k + 1));
            }
            lo_b = d;
            hi_b = d;
        }
        k = k + 1;
    }
    let ghost bpre = blocks@;
    blocks.push((lo_b, hi_b));
    proof {
        lemma_block_elems_push(bpre, (lo_b, hi_b));
        assert(display@.take(display@.len() as int) =~= display@);
        assert(block_elems(blocks@) =~= display@);
    }
    blocks
}

/// Expand an ascending match set into the ascending set of line indices to
/// display: every match plus its clamped context window.
pub fn build_display(line_count: usize, matches: &Vec<usize>, cs: &ContextSpec) -> (display: Vec<
    usize,
>)
    requires
        forall|k: int| 0 <= k < matches@.len() ==> matches@[k] < line_count,
        strictly_ascending(matches@),
    ensures
        strictly_ascending(display@),
        forall|k: int| 0 <= k < display@.len() ==> display@[k] < line_count,
        forall|j: usize|
            display@.contains(j) <==> in_window(
                matches@,
                line_count as int,
                eff_before(*cs),
                eff_after(*cs),
                j as int,
            ),
{
    let b = if cs.context > 0 {
        cs.context
    } else {
        cs.before
    };
    let a = if cs.context > 0 {
        cs.context
    } else {
        cs.after
    };
    let mut display: Vec<usize> = Vec::new();
    let mut m: usize = 0;
    while m < matches.len()
        invariant
            m <= matches@.len(),
            b as int == eff_before(*cs),
            a as int == eff_after(*cs),
            forall|k: int| 0 <= k < matches@.len() ==> matches@[k] < line_count,
            strictly_ascending(matches@),
            strictly_ascending(display@),
            forall|k: int| 0 <= k < display@.len() ==> display@[k] < line_count,
            forall|j: usize|
                display@.contains(j) <==> in_window_upto(
                    matches@,
                    m as int,
                    line_count as int,
                    b as int,
                    a as int,
                    j as int,
                ),
            m > 0 ==> display@.len() > 0 && display@.last() as int == win_hi(
                matches@[m - 1] as int,
                a as int,
                line_count as int,
            ),
        decreases matches@.len() - m,
    {
        let i = matches[m];
        let lo = if i >= b {
            i - b
        } else {
            0
        };
        let hi = if line_count - 1 - i <= a {
            line_count - 1
        } else {
            i + a
        };
        proof {
            assert(lo as int == win_lo(i as int, b as int));
            assert(hi as int == win_hi(i as int, a as int, line_count as int));
        }
        let start = if display.len() > 0 {
            let lastv = display[display.len() - 1];
            if lastv + 1 > lo {
                lastv + 1
            } else {
                lo
            }
        } else {
            lo
        };
        proof {
            // the previous window top is at most this one's, so start <= hi + 1
            if m > 0 {
                assert(matches@[m - 1] < i);
            }
            if display@.len() > 0 {
                // display is non-empty only once a match was processed
                assert(display@.contains(display@.last()));
                assert(m > 0);
            }
            assert(lo <= start <= hi + 1);
        }
        let ghost dpre = display@;
        let mut j = start;
        while j <= hi
            invariant
                lo <= start <= j <= hi + 1,
                hi < line_count,
                start as int >= win_lo(i as int, b as int),
                strictly_ascending(dpre),
                forall|k: int| 0 <= k < dpre.len() ==> dpre[k] < start,
                display@ == dpre + range_seq(start as int, j - 1),
            decreases hi + 1 - j,
        {
            proof {
                lemma_range_seq(start as int, j - 1);
                lemma_range_seq_push(start as int, j as int);
                assert((dpre + range_seq(start as int, j - 1)).push(j) =~= dpre + range_seq(
                    start as int,
                    j as int,
                ));
            }
            display.push(j);
            j = j + 1;
        }
        proof {
            assert(display@ == dpre + range_seq(start as int, hi as int));
            lemma_range_seq(start as int, hi as int);
            // ascending and bounded
            assert forall|x: int, y: int| 0 <= x < y < display@.len() implies display@[x]
                < display@[y] by {
                if x >= dpre.len() {
                    assert(display@[x] == start + (x - dpre.len()));
                    assert(display@[y] == start + (y - dpre.len()));
                } else if y >= dpre.len() {
                    assert(dpre[x] < start);
                    assert(display@[y] == start + (y - dpre.len()));
                }
            }
            assert forall|k: int| 0 <= k < display@.len() implies display@[k] < line_count by {
                if k >= dpre.len() {
                    assert(display@[k] == start + (k - dpre.len()));
                }
            }
            // membership: the new elements are exactly this match's window
            assert forall|x: usize|
                display@.contains(x) <==> in_window_upto(
                    matches@,
                    m + 1,
                    line_count as int,
                    b as int,
                    a as int,
                    x as int,
                ) by {
                lemma_concat_contains(dpre, range_seq(start as int, hi as int), x);
                lemma_range_seq_contains(start as int, hi as int, x);
                lemma_in_window_step(
                    matches@,
                    m as int,
                    line_count as int,
                    b as int,
                    a as int,
                    x as int,
                );
                if dpre.contains(x) {
                    assert(in_window_upto(
                        matches@,
                        m as int,
                        line_count as int,
                        b as int,
                        a as int,
                        x as int,
                    ));
                }
                if win_lo(i as int, b as int) <= x as int <= win_hi(
                    i as int,
                    a as int,
                    line_count as int,
                ) && !(start <= x <= hi) {
                    // covered by the previous match's window
                    assert(x < start);
                    assert(m > 0 && start == dpre.last() + 1);
                    assert(win_lo(matches@[m - 1] as int, b as int) <= win_lo(i as int, b as int));
                    assert(in_window_upto(
                        matches@,
                        m as int,
                        line_count as int,
                        b as int,
                        a as int,
                        x as int,
                    ));
                }
            }
            // the last displayed index is this match's window top
            if start <= hi {
                assert(display@.last() == hi);
            } else {
                assert(range_seq(start as int, hi as int) =~= Seq::<usize>::empty());
                assert(display@ =~= dpre);
                assert(start == dpre.last() + 1);
            }
        }
        m = m + 1;
    }
    display
}

/// The context window builder: the display set together with its maximal
/// contiguous blocks.
pub fn build_window(line_count: usize, matches: &Vec<usize>, cs: &ContextSpec) -> (r: (
    Vec<usize>,
    Vec<(usize, usize)>,
))
    requires
        forall|k: int| 0 <= k < matches@.len() ==> matches@[k] < line_count,
        strictly_ascending(matches@),
    ensures
        strictly_ascending(r.0@),
        forall|k: int| 0 <= k < r.0@.len() ==> r.0@[k] < line_count,
        forall|j: usize|
            r.0@.contains(j) <==> in_window(
                matches@,
                line_count as int,
                eff_before(*cs),
                eff_after(*cs),
                j as int,
            ),
        block_elems(r.1@) == r.0@,
        blocks_wf(r.1@, line_count as int),
{
    let display = build_display(line_count, matches, cs);
    let blocks = blocks_of(&display, line_count);
    (display, blocks)
}

// --- laws of the context window builder --------------------------------------

/// Every match is displayed: the match set is contained in the display set,
/// whatever the context sizes are.
pub proof fn lemma_match_set_displayed(
    matches: Seq<usize>,
    line_count: int,
    b: int,
    a: int,
    j: usize,
)
    requires
        b >= 0,
        a >= 0,
        forall|k: int| 0 <= k < matches.len() ==> matches[k] < line_count,
        matches.contains(j),
    ensures
        in_window(matches, line_count, b, a, j as int),
{
    let k = choose|k: int| 0 <= k < matches.len() && matches[k] == j;
    assert(0 <= k < matches.len() && matches[k] - b <= (j as int) <= matches[k] + a && 0 <= (j as int) < line_count);
}

/// Two strictly ascending sequences with the same members are equal.
pub proof fn lemma_ascending_same_members_equal(s1: Seq<usize>, s2: Seq<usize>)
    requires
        strictly_ascending(s1),
        strictly_ascending(s2),
        forall|x: usize| s1.contains(x) <==> s2.contains(x),
    ensures
        s1 == s2,
    decreases s1.len(),
{
    if s1.len() == 0 {
        if s2.len() > 0 {
            assert(s2.contains(s2[0]));
        }
        assert(s1 =~= s2);
    } else {
        assert(s1.contains(s1[0]));
        assert(s2.contains(s2[0]));
        let k1 = choose|k: int| 0 <= k < s2.len() && s2[k] == s1[0];
        let k2 = choose|k: int| 0 <= k < s1.len() && s1[k] == s2[0];
        assert(s2[0] <= s2[k1] == s1[0]);
        assert(s1[0] <= s1[k2] == s2[0]);
        assert(s1[0] == s2[0]);
        let t1 = s1.drop_first();
        let t2 = s2.drop_first();
        assert forall|x: usize| t1.contains(x) implies t2.contains(x) by {
            let k = choose|k: int| 0 <= k < t1.len() && t1[k] == x;
            assert(s1[k + 1] == x);
            assert(s1.contains(x));
            let k3 = choose|k3: int| 0 <= k3 < s2.len() && s2[k3] == x;
            assert(x > s1[0]);
            assert(k3 > 0);
            assert(t2[k3 - 1] == x);
        }
        assert forall|x: usize| t2.contains(x) implies t1.contains(x) by {
            let k = choose|k: int| 0 <= k < t2.len() && t2[k] == x;
            assert(s2[k + 1] == x);
            assert(s2.contains(x));
            let k3 = choose|k3: int| 0 <= k3 < s1.len() && s1[k3] == x;
            assert(x > s2[0]);
            assert(k3 > 0);
            assert(t1[k3 - 1] == x);
        }
        lemma_ascending_same_members_equal(t1, t2);
        assert(s1.len() == s2.len());
        assert forall|k: int| 0 <= k < s1.len() implies s1[k] == s2[k] by {
            if k > 0 {
                assert(t1[k - 1] == s1[k]);
                assert(t2[k - 1] == s2[k]);
            }
        }
        assert(s1 =~= s2);
    }
}

/// With all context sizes zero, membership in the display set is exactly
/// membership in the match set.
pub proof fn lemma_zero_context_window(matches: Seq<usize>, line_count: int, j: usize)
    requires
        forall|k: int| 0 <= k < matches.len() ==> matches[k] < line_count,
    ensures
        in_window(matches, line_count, 0, 0, j as int) <==> matches.contains(j),
{
    if in_window(matches, line_count, 0, 0, j as int) {
        let k = choose|k: int|
            0 <= k < matches.len() && (#[trigger] matches[k]) - 0 <= (j as int) <= matches[k] + 0
                && 0 <= (j as int) < line_count;
        assert(matches[k] == j);
    }
    if matches.contains(j) {
        lemma_match_set_displayed(matches, line_count, 0, 0, j);
    }
}

/// With all context sizes zero, the display set is exactly the match set.
pub proof fn lemma_zero_context_display(
    display: Seq<usize>,
    matches: Seq<usize>,
    line_count: int,
    cs: ContextSpec,
)
    requires
        cs.is_zero(),
        strictly_ascending(display),
        strictly_ascending(matches),
        forall|k: int| 0 <= k < matches.len() ==> matches[k] < line_count,
        forall|j: usize|
            display.contains(j) <==> in_window(matches, line_count, eff_before(cs), eff_after(cs), j as int),
    ensures
        display == matches,
{
    assert forall|j: usize| display.contains(j) <==> matches.contains(j) by {
        lemma_zero_context_window(matches, line_count, j);
    }
    lemma_ascending_same_members_equal(display, matches);
}

} // verus!
