use vstd::prelude::*;

verus! {

// --- splitting input text into lines ---------------------------------------

/// Position of the first newline character in `s`, or `s.len()` when there is
/// none.
pub open spec fn first_nl(s: Seq<char>) -> nat
    decreases s.len(),
{
    if s.len() == 0 {
        0
    } else if s[0] == '\n' {
        0
    } else {
        (1 + first_nl(s.drop_first())) as nat
    }
}

/// Drop one trailing carriage return, as line splitting does for a line that
/// ends in a newline.
pub open spec fn strip_cr(l: Seq<char>) -> Seq<char> {
    if l.len() > 0 && l[l.len() - 1] == '\r' {
        l.drop_last()
    } else {
        l
    }
}

/// The line sequence of a text: split on newlines, with a carriage return
/// stripped from the end of each newline-terminated segment, and no final
/// empty line when the text ends in a newline.
pub open spec fn lines_of(s: Seq<char>) -> Seq<Seq<char>>
    decreases s.len(),
{
    if s.len() == 0 {
        Seq::empty()
    } else {
        let j = first_nl(s);
        if j >= s.len() {
            seq![s]
        } else {
            seq![strip_cr(s.subrange(0, j as int))] + lines_of(
                s.subrange(j as int + 1, s.len() as int),
            )
        }
    }
}

/// `first_nl` is determined by "no newline before, newline (or end) at".
pub proof fn lemma_first_nl_is(s: Seq<char>, m: int)
    requires
        0 <= m <= s.len(),
        forall|k: int| 0 <= k < m ==> s[k] != '\n',
        m < s.len() ==> s[m] == '\n',
    ensures
        first_nl(s) == if m < s.len() {
            m as nat
        } else {
            s.len()
        },
    decreases s.len(),
{
    if s.len() == 0 {
    } else if m == 0 {
    } else {
        assert(s[0] != '\n');
        lemma_first_nl_is(s.drop_first(), m - 1);
    }
}

/// Executable line splitting, returning sub-slices of the input.
pub fn split_lines<'a>(contents: &'a str) -> (r: Vec<&'a str>)
    ensures
        r.deep_view() == lines_of(contents@),
{
    let n = contents.unicode_len();
    let mut r: Vec<&'a str> = Vec::new();
    proof {
        assert(contents@.subrange(0, n as int) =~= contents@);
        assert(r.deep_view() =~= Seq::<Seq<char>>::empty());
        assert(Seq::<Seq<char>>::empty() + lines_of(contents@) =~= lines_of(contents@));
    }
    let mut start: usize = 0;
    let mut i: usize = 0;
    while i < n
        invariant
            n == contents@.len(),
            start <= i <= n,
            forall|k: int| start <= k < i ==> contents@[k] != '\n',
            lines_of(contents@) =~= r.deep_view() + lines_of(
                contents@.subrange(start as int, n as int),
            ),
        decreases n - i,
    {
        if contents.get_char(i) == '\n' {
            let mut end = i;
            if end > start && contents.get_char(end - 1) == '\r' {
                end = end - 1;
            }
            let line = contents.substring_char(start, end);
            let ghost pre = r.deep_view();
            r.push(line);
            proof {
                let t = contents@.subrange(start as int, n as int);
                lemma_first_nl_is(t, i - start);
                assert(t.subrange(0, i - start) =~= contents@.subrange(start as int, i as int));
                assert(strip_cr(t.subrange(0, i - start)) =~= line@);
                assert(t.subrange(i - start + 1, t.len() as int) =~= contents@.subrange(
                    i + 1,
                    n as int,
                ));
                assert(r.deep_view() =~= pre + seq![line@]);
                assert((pre + seq![line@]) + lines_of(contents@.subrange(i + 1, n as int)) =~= pre
                    + (seq![line@] + lines_of(contents@.subrange(i + 1, n as int))));
            }
            start = i + 1;
        }
        i = i + 1;
    }
    if start < n {
        let line = contents.substring_char(start, n);
        let ghost pre = r.deep_view();
        r.push(line);
        proof {
            let t = contents@.subrange(start as int, n as int);
            lemma_first_nl_is(t, t.len() as int);
            assert(t =~= line@);
            assert(lines_of(t) =~= seq![line@]);
            assert(r.deep_view() =~= pre + seq![line@]);
        }
    } else {
        proof {
            assert(contents@.subrange(start as int, n as int) =~= Seq::<char>::empty());
            assert(r.deep_view() + Seq::<Seq<char>>::empty() =~= r.deep_view());
        }
    }
    proof {
        assert(r.deep_view() =~= lines_of(contents@));
    }
    r
}

} // verus!
