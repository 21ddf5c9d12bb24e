use vstd::prelude::*;

verus! {

// --- ASCII case folding ---------------------------------------------------

/// ASCII case folding of one byte: `A`..=`Z` map to `a`..=`z`, every other
/// byte (including all non-ASCII UTF-8 code units) is unchanged.
pub open spec fn spec_fold_byte(b: u8) -> u8 {
    if 65 <= b && b <= 90 {
        (b + 32) as u8
    } else {
        b
    }
}

/// ASCII case folding of a whole byte sequence; it is length-preserving.
pub open spec fn fold_bytes(s: Seq<u8>) -> Seq<u8> {
    s.map_values(|b: u8| spec_fold_byte(b))
}

/// Executable ASCII case folding of one byte.
pub fn fold_byte(b: u8) -> (r: u8)
    ensures
        r == spec_fold_byte(b),
{
    if b >= 65 && b <= 90 {
        b + 32
    } else {
        b
    }
}

/// Executable ASCII case folding of a byte sequence.
pub fn fold_bytes_vec(s: &[u8]) -> (r: Vec<u8>)
    ensures
        r@ == fold_bytes(s@),
{
    let mut r: Vec<u8> = Vec::new();
    let mut i: usize = 0;
    while i < s.len()
        invariant
            i <= s@.len(),
            r@.len() == i,
            forall|k: int| 0 <= k < i ==> r@[k] == spec_fold_byte(s@[k]),
        decreases s@.len() - i,
    {
        r.push(fold_byte(s[i]));
        i = i + 1;
    }
    proof {
        assert(r@ =~= fold_bytes(s@));
    }
    r
}

// --- substring containment ------------------------------------------------

/// `needle` occurs in `hay` starting at position `i`.
pub open spec fn matches_at(hay: Seq<u8>, needle: Seq<u8>, i: int) -> bool {
    &&& 0 <= i
    &&& i + needle.len() <= hay.len()
    &&& hay.subrange(i, i + needle.len() as int) == needle
}

/// `needle` occurs somewhere in `hay` (byte-level substring containment).
pub open spec fn contains_seq(hay: Seq<u8>, needle: Seq<u8>) -> bool {
    exists|i: int| matches_at(hay, needle, i)
}

/// Compare `needle` against `hay` at position `i`.
fn match_at(hay: &[u8], needle: &[u8], i: usize) -> (r: bool)
    requires
        i + needle@.len() <= hay@.len(),
    ensures
        r == matches_at(hay@, needle@, i as int),
{
    let n = needle.len();
    let hl = hay.len();
    let mut j: usize = 0;
    while j < n
        invariant
            n == needle@.len(),
            hl == hay@.len(),
            i + n <= hl,
            j <= n,
            forall|k: int| 0 <= k < j ==> hay@[i + k] == needle@[k],
        decreases n - j,
    {
        if hay[i + j] != needle[j] {
            proof {
                assert(hay@.subrange(i as int, i + needle@.len())[j as int] == hay@[i + j]);
            }
            return false;
        }
        j = j + 1;
    }
    proof {
        assert(hay@.subrange(i as int, i + needle@.len()) =~= needle@);
    }
    true
}

/// The least position `>= from` at which `needle` occurs in `hay`.
pub open spec fn spec_find_from(hay: Seq<u8>, needle: Seq<u8>, from: int) -> Option<int>
    decreases hay.len() - from + 1,
{
    if from < 0 || from + needle.len() > hay.len() {
        None
    } else if matches_at(hay, needle, from) {
        Some(from)
    } else {
        spec_find_from(hay, needle, from + 1)
    }
}

/// What `spec_find_from` returns: the first occurrence at or after `from`,
/// or `None` when there is none.
pub proof fn lemma_find_from(hay: Seq<u8>, needle: Seq<u8>, from: int)
    requires
        0 <= from,
    ensures
        match spec_find_from(hay, needle, from) {
            Some(i) => from <= i && matches_at(hay, needle, i) && forall|k: int|
                from <= k < i ==> !matches_at(hay, needle, k),
            None => forall|k: int| from <= k ==> !matches_at(hay, needle, k),
        },
    decreases hay.len() - from + 1,
{
    if from + needle.len() > hay.len() {
        assert forall|k: int| from <= k implies !matches_at(hay, needle, k) by {}
    } else if matches_at(hay, needle, from) {
    } else {
        lemma_find_from(hay, needle, from + 1);
    }
}

/// Executable search for the first occurrence of `needle` in `hay` at or
/// after position `from`.
pub fn find_from(hay: &[u8], needle: &[u8], from: usize) -> (r: Option<usize>)
    ensures
        match r {
            Some(i) => spec_find_from(hay@, needle@, from as int) == Some(i as int),
            None => spec_find_from(hay@, needle@, from as int) is None,
        },
{
    let nl = needle.len();
    if nl > hay.len() || from > hay.len() - nl {
        return None;
    }
    if nl == 0 {
        proof {
            assert(hay@.subrange(from as int, from as int) =~= needle@);
        }
        return Some(from);
    }
    let last = hay.len() - nl;
    let mut i: usize = from;
    while i <= last
        invariant
            1 <= nl == needle@.len(),
            hay@.len() <= usize::MAX,
            last == hay@.len() - nl,
            from <= i,
            i <= last + 1,
            spec_find_from(hay@, needle@, from as int) == spec_find_from(hay@, needle@, i as int),
        decreases last + 1 - i,
    {
        if match_at(hay, needle, i) {
            return Some(i);
        }
        i = i + 1;
    }
    None
}

/// Executable byte-level substring containment.
pub fn contains_bytes(hay: &[u8], needle: &[u8]) -> (r: bool)
    ensures
        r == contains_seq(hay@, needle@),
{
    proof {
        lemma_find_from(hay@, needle@, 0);
    }
    match find_from(hay, needle, 0) {
        Some(_) => true,
        None => false,
    }
}

// --- UTF-8 character boundaries ---------------------------------------------

/// The first byte of well-formed UTF-8 is a leading byte, never a
/// continuation byte.
pub proof fn lemma_lead_byte_not_continuation(b: Seq<u8>)
    requires
        vstd::utf8::valid_utf8(b),
        b.len() > 0,
    ensures
        !vstd::utf8::is_continuation_byte(b[0]),
{
}

/// In valid UTF-8, a position whose byte is not a continuation byte (or the
/// end of the sequence) is a character boundary.
pub proof fn lemma_non_continuation_is_boundary(b: Seq<u8>, i: int)
    requires
        vstd::utf8::valid_utf8(b),
        0 <= i <= b.len(),
        i == b.len() || !vstd::utf8::is_continuation_byte(b[i]),
    ensures
        vstd::utf8::is_char_boundary(b, i),
    decreases b.len(),
{
    if i == 0 {
    } else {
        let w = vstd::utf8::length_of_first_scalar(b);
        let p = vstd::utf8::pop_first_scalar(b);
        if i < w {
            // positions inside the first scalar hold continuation bytes
            assert(vstd::utf8::is_continuation_byte(b[i]));
        } else {
            if i < b.len() {
                assert(p[i - w] == b[i]);
            }
            lemma_non_continuation_is_boundary(p, i - w);
        }
    }
}

/// A match of well-formed UTF-8 at a character boundary of a valid haystack
/// ends at a character boundary too.
pub proof fn lemma_match_end_boundary(hay: Seq<u8>, needle: Seq<u8>, s: int)
    requires
        vstd::utf8::valid_utf8(hay),
        vstd::utf8::valid_utf8(needle),
        vstd::utf8::is_char_boundary(hay, s),
        matches_at(hay, needle, s),
    ensures
        vstd::utf8::is_char_boundary(hay, s + needle.len()),
    decreases hay.len(),
{
    let nl = needle.len() as int;
    if nl == 0 {
    } else if s > 0 {
        let w = vstd::utf8::length_of_first_scalar(hay);
        let p = vstd::utf8::pop_first_scalar(hay);
        assert(p.subrange(s - w, s - w + nl) =~= hay.subrange(s, s + nl));
        lemma_match_end_boundary(p, needle, s - w);
    } else {
        let w = vstd::utf8::length_of_first_scalar(hay);
        let ph = vstd::utf8::pop_first_scalar(hay);
        let pn = vstd::utf8::pop_first_scalar(needle);
        assert(hay.subrange(0, nl)[0] == hay[0]);
        assert(hay[0] == needle[0]);
        // the scalar length is decided by the first byte, which the two share
        assert(w == vstd::utf8::length_of_first_scalar(needle));
        assert(ph.subrange(0, nl - w) =~= hay.subrange(w, nl));
        assert(hay.subrange(w, nl) =~= needle.subrange(w, nl));
        assert(needle.subrange(w, nl) =~= pn);
        lemma_match_end_boundary(ph, pn, 0);
    }
}

/// ASCII case folding keeps UTF-8 well formed and keeps every character
/// boundary: folding touches single-byte scalars only.
pub proof fn lemma_fold_preserves_utf8(b: Seq<u8>)
    requires
        vstd::utf8::valid_utf8(b),
    ensures
        vstd::utf8::valid_utf8(fold_bytes(b)),
        forall|i: int|
            #[trigger] vstd::utf8::is_char_boundary(fold_bytes(b), i)
                == vstd::utf8::is_char_boundary(b, i),
    decreases b.len(),
{
    let f = fold_bytes(b);
    if b.len() == 0 {
        assert(f =~= b);
    } else {
        let w = vstd::utf8::length_of_first_scalar(b);
        assert(f[0] == spec_fold_byte(b[0]));
        assert forall|j: int| 1 <= j < b.len() && vstd::utf8::is_continuation_byte(
            b[j],
        ) implies f[j] == b[j] by {
            assert(f[j] == spec_fold_byte(b[j]));
        }
        if vstd::utf8::is_leading_byte_width_1(b[0]) {
            let f0 = f[0];
            assert((f0 & 0x7f) <= 0x7f) by (bit_vector);
        } else {
            assert(f[0] == b[0]);
        }
        assert(vstd::utf8::valid_first_scalar(f));
        assert(vstd::utf8::length_of_first_scalar(f) == w);
        let pb = vstd::utf8::pop_first_scalar(b);
        let pf = vstd::utf8::pop_first_scalar(f);
        assert(pf =~= fold_bytes(pb));
        lemma_fold_preserves_utf8(pb);
        assert(vstd::utf8::valid_utf8(f));
        assert forall|i: int|
            #[trigger] vstd::utf8::is_char_boundary(f, i) == vstd::utf8::is_char_boundary(
            b,
            i,
        ) by {
            if i == 0 || i < 0 || b.len() < i {
            } else {
                assert(vstd::utf8::is_char_boundary(f, i) == vstd::utf8::is_char_boundary(
                    pf,
                    i - w,
                ));
                assert(vstd::utf8::is_char_boundary(b, i) == vstd::utf8::is_char_boundary(
                    pb,
                    i - w,
                ));
            }
        }
    }
}

// --- containment between strings, as the matcher uses it -------------------

/// `q` is a byte-level substring of `line`, both taken as UTF-8.
pub open spec fn str_contains(line: Seq<char>, q: Seq<char>) -> bool {
    contains_seq(vstd::utf8::encode_utf8(line), vstd::utf8::encode_utf8(q))
}

/// The Unicode lowercase form of a string, named after `str::to_lowercase`:
/// a function of the characters alone.
pub uninterp spec fn lower_of(s: Seq<char>) -> Seq<char>;

/// Relies on str::to_lowercase: the lowercase form depends on the characters
/// alone (locale-independent, per its documentation).
#[verifier::external_body]
pub fn to_lowercase(s: &str) -> (r: String)
    ensures
        r@ == lower_of(s@),
{
    s.to_lowercase()
}

/// Case-insensitive containment: both sides are lowercased first.
pub open spec fn str_contains_ci(line: Seq<char>, q: Seq<char>) -> bool {
    contains_seq(
        vstd::utf8::encode_utf8(lower_of(line)),
        vstd::utf8::encode_utf8(lower_of(q)),
    )
}

/// Executable containment test on strings.
pub fn contains_str(line: &str, q: &str) -> (r: bool)
    ensures
        r == str_contains(line@, q@),
{
    contains_bytes(line.as_bytes(), q.as_bytes())
}

/// Executable case-insensitive containment test on strings.
pub fn contains_str_ci(line: &str, q: &str) -> (r: bool)
    ensures
        r == str_contains_ci(line@, q@),
{
    let ll = to_lowercase(line);
    let lq = to_lowercase(q);
    contains_bytes(ll.as_str().as_bytes(), lq.as_str().as_bytes())
}

} // verus!
