//! Byte-level primitives for the document grammar: scanning for a byte,
//! skipping runs, trimming trailing spaces, and splitting a document into
//! lines at newline bytes.

use vstd::prelude::*;
use vstd::slice::{slice_subrange, slice_to_vec};

verus! {

/// Index of the first occurrence of `b` in `s` at or after `i`; the length of
/// `s` where there is none.
pub open spec fn find_byte_from(s: Seq<u8>, b: u8, i: int) -> int
    decreases s.len() - i,
{
    if i < 0 || i >= s.len() {
        s.len() as int
    } else if s[i] == b {
        i
    } else {
        find_byte_from(s, b, i + 1)
    }
}

pub proof fn lemma_find_byte_from(s: Seq<u8>, b: u8, i: int)
    requires
        0 <= i <= s.len(),
    ensures
        i <= find_byte_from(s, b, i) <= s.len(),
        forall|j: int| i <= j < find_byte_from(s, b, i) ==> s[j] != b,
        find_byte_from(s, b, i) < s.len() ==> s[find_byte_from(s, b, i)] == b,
    decreases s.len() - i,
{
    if i < s.len() && s[i] != b {
        lemma_find_byte_from(s, b, i + 1);
    }
}

pub proof fn lemma_find_byte_from_is(s: Seq<u8>, b: u8, i: int, k: int)
    requires
        0 <= i <= k <= s.len(),
        forall|j: int| i <= j < k ==> s[j] != b,
        k < s.len() ==> s[k] == b,
    ensures
        find_byte_from(s, b, i) == k,
    decreases k - i,
{
    if i < k {
        lemma_find_byte_from_is(s, b, i + 1, k);
    }
}

/// First occurrence of `b` in `s` at or after `from`, or the length of `s`.
pub fn find_byte(s: &[u8], b: u8, from: usize) -> (r: usize)
    requires
        from <= s@.len(),
    ensures
        r as int == find_byte_from(s@, b, from as int),
        from <= r <= s@.len(),
        forall|j: int| from <= j < r ==> s@[j] != b,
        r < s@.len() ==> s@[r as int] == b,
{
    let n = s.len();
    let mut i: usize = from;
    while i < n && s[i] != b
        invariant
            n == s@.len(),
            from <= i <= n,
            forall|j: int| from <= j < i ==> s@[j] != b,
        decreases n - i,
    {
        i = i + 1;
    }
    proof {
        lemma_find_byte_from_is(s@, b, from as int, i as int);
    }
    i
}

/// Index of the first byte in `s` at or after `i` that differs from `b`; the
/// length of `s` where there is none.
pub open spec fn skip_byte_from(s: Seq<u8>, b: u8, i: int) -> int
    decreases s.len() - i,
{
    if i < 0 || i >= s.len() {
        s.len() as int
    } else if s[i] != b {
        i
    } else {
        skip_byte_from(s, b, i + 1)
    }
}

pub proof fn lemma_skip_byte_from(s: Seq<u8>, b: u8, i: int)
    requires
        0 <= i <= s.len(),
    ensures
        i <= skip_byte_from(s, b, i) <= s.len(),
        forall|j: int| i <= j < skip_byte_from(s, b, i) ==> s[j] == b,
        skip_byte_from(s, b, i) < s.len() ==> s[skip_byte_from(s, b, i)] != b,
    decreases s.len() - i,
{
    if i < s.len() && s[i] == b {
        lemma_skip_byte_from(s, b, i + 1);
    }
}

pub proof fn lemma_skip_byte_from_is(s: Seq<u8>, b: u8, i: int, k: int)
    requires
        0 <= i <= k <= s.len(),
        forall|j: int| i <= j < k ==> s[j] == b,
        k < s.len() ==> s[k] != b,
    ensures
        skip_byte_from(s, b, i) == k,
    decreases k - i,
{
    if i < k {
        lemma_skip_byte_from_is(s, b, i + 1, k);
    }
}

/// First index at or after `from` holding a byte other than `b`, or the
/// length of `s`.
pub fn skip_byte(s: &[u8], b: u8, from: usize) -> (r: usize)
    requires
        from <= s@.len(),
    ensures
        r as int == skip_byte_from(s@, b, from as int),
        from <= r <= s@.len(),
        forall|j: int| from <= j < r ==> s@[j] == b,
        r < s@.len() ==> s@[r as int] != b,
{
    let n = s.len();
    let mut i: usize = from;
    while i < n && s[i] == b
        invariant
            n == s@.len(),
            from <= i <= n,
            forall|j: int| from <= j < i ==> s@[j] == b,
        decreases n - i,
    {
        i = i + 1;
    }
    proof {
        lemma_skip_byte_from_is(s@, b, from as int, i as int);
    }
    i
}

/// A mapping line splits at a colon that is followed by a space or stands at
/// the end of the line.
pub open spec fn is_key_colon(s: Seq<u8>, j: int) -> bool {
    s[j] == 58 && (j + 1 == s.len() || s[j + 1] == 32)
}

/// Index of the first key colon in `s` at or after `i`; the length of `s`
/// where there is none.
pub open spec fn key_colon_from(s: Seq<u8>, i: int) -> int
    decreases s.len() - i,
{
    if i < 0 || i >= s.len() {
        s.len() as int
    } else if is_key_colon(s, i) {
        i
    } else {
        key_colon_from(s, i + 1)
    }
}

pub proof fn lemma_key_colon_from(s: Seq<u8>, i: int)
    requires
        0 <= i <= s.len(),
    ensures
        i <= key_colon_from(s, i) <= s.len(),
        forall|j: int| i <= j < key_colon_from(s, i) ==> !is_key_colon(s, j),
        key_colon_from(s, i) < s.len() ==> is_key_colon(s, key_colon_from(s, i)),
    decreases s.len() - i,
{
    if i < s.len() && !is_key_colon(s, i) {
        lemma_key_colon_from(s, i + 1);
    }
}

pub proof fn lemma_key_colon_from_is(s: Seq<u8>, i: int, k: int)
    requires
        0 <= i <= k <= s.len(),
        forall|j: int| i <= j < k ==> !is_key_colon(s, j),
        k < s.len() ==> is_key_colon(s, k),
    ensures
        key_colon_from(s, i) == k,
    decreases k - i,
{
    if i < k {
        lemma_key_colon_from_is(s, i + 1, k);
    }
}

/// First key colon at or after `from`, or the length of `s`.
pub fn key_colon(s: &[u8], from: usize) -> (r: usize)
    requires
        from <= s@.len(),
    ensures
        r as int == key_colon_from(s@, from as int),
        from <= r <= s@.len(),
        r < s@.len() ==> is_key_colon(s@, r as int),
{
    let n = s.len();
    let mut i: usize = from;
    while i < n && !(s[i] == 58 && (i + 1 == n || s[i + 1] == 32))
        invariant
            n == s@.len(),
            from <= i <= n,
            forall|j: int| from <= j < i ==> !is_key_colon(s@, j),
        decreases n - i,
    {
        i = i + 1;
    }
    proof {
        lemma_key_colon_from_is(s@, from as int, i as int);
    }
    i
}

/// Length of `s` once trailing spaces are removed.
pub open spec fn trim_end_from(s: Seq<u8>) -> int
    decreases s.len(),
{
    if s.len() == 0 {
        0
    } else if s[s.len() - 1] != 32 {
        s.len() as int
    } else {
        trim_end_from(s.drop_last())
    }
}

pub proof fn lemma_trim_end_from_is(s: Seq<u8>, k: int)
    requires
        0 <= k <= s.len(),
        forall|j: int| k <= j < s.len() ==> s[j] == 32,
        k > 0 ==> s[k - 1] != 32,
    ensures
        trim_end_from(s) == k,
    decreases s.len(),
{
    if s.len() > 0 && s[s.len() - 1] == 32 {
        lemma_trim_end_from_is(s.drop_last(), k);
    }
}

/// Index just past the last non-space byte of `s@.subrange(lo, hi)`, offset
/// from the start of `s`.
pub fn trim_end_in(s: &[u8], lo: usize, hi: usize) -> (r: usize)
    requires
        lo <= hi <= s@.len(),
    ensures
        r as int == lo + trim_end_from(s@.subrange(lo as int, hi as int)),
        lo <= r <= hi,
{
    let mut i: usize = hi;
    while i > lo && s[i - 1] == 32
        invariant
            lo <= i <= hi <= s@.len(),
            forall|j: int| i <= j < hi ==> s@[j] == 32,
        decreases i,
    {
        i = i - 1;
    }
    proof {
        lemma_trim_end_from_is(s@.subrange(lo as int, hi as int), i - lo);
    }
    i
}

/// The line holds nothing but spaces.
pub open spec fn is_blank(s: Seq<u8>) -> bool {
    forall|j: int| 0 <= j < s.len() ==> s[j] == 32
}

/// Decides whether a line holds nothing but spaces.
pub fn blank(s: &[u8]) -> (r: bool)
    ensures
        r == is_blank(s@),
{
    let r = skip_byte(s, 32, 0);
    r == s.len()
}

/// Decides byte-string equality.
pub fn bytes_eq(a: &[u8], b: &[u8]) -> (r: bool)
    ensures
        r == (a@ == b@),
{
    if a.len() != b.len() {
        return false;
    }
    let n = a.len();
    let mut i: usize = 0;
    while i < n && a[i] == b[i]
        invariant
            n == a@.len() == b@.len(),
            i <= n,
            forall|j: int| 0 <= j < i ==> a@[j] == b@[j],
        decreases n - i,
    {
        i = i + 1;
    }
    if i == n {
        proof {
            assert(a@ =~= b@);
        }
        true
    } else {
        false
    }
}

/// Copies `s[lo..hi]` into a fresh vector.
pub fn subrange_vec(s: &[u8], lo: usize, hi: usize) -> (r: Vec<u8>)
    requires
        lo <= hi <= s@.len(),
    ensures
        r@ == s@.subrange(lo as int, hi as int),
{
    slice_to_vec(slice_subrange(s, lo, hi))
}

/// The lines of a document: split at every newline byte, the newline bytes
/// themselves dropped, the text after the last newline a final line when it
/// is not empty.
pub open spec fn split_lines_spec(s: Seq<u8>) -> Seq<Seq<u8>>
    decreases s.len(),
{
    if s.len() == 0 {
        seq![]
    } else {
        let n = find_byte_from(s, 10, 0);
        if n < s.len() {
            proof {
                lemma_find_byte_from(s, 10, 0);
            }
            seq![s.subrange(0, n)] + split_lines_spec(s.subrange(n + 1, s.len() as int))
        } else {
            seq![s.subrange(0, n)]
        }
    }
}

/// The mathematical value of a vector of lines.
pub open spec fn lines_views(v: Seq<Vec<u8>>) -> Seq<Seq<u8>> {
    v.map_values(|l: Vec<u8>| l@)
}

/// Splits a document into its lines.
pub fn split_lines(s: &[u8]) -> (r: Vec<Vec<u8>>)
    ensures
        lines_views(r@) == split_lines_spec(s@),
{
    let n = s.len();
    let mut out: Vec<Vec<u8>> = Vec::new();
    let mut pos: usize = 0;
    proof {
        assert(s@.subrange(0, n as int) =~= s@);
        assert(lines_views(out@) + split_lines_spec(s@) =~= split_lines_spec(s@));
    }
    while pos < n
        invariant
            n == s@.len(),
            pos <= n,
            lines_views(out@) + split_lines_spec(s@.subrange(pos as int, n as int))
                == split_lines_spec(s@),
        decreases n - pos,
    {
        let ghost prev = out@;
        let ghost suf = s@.subrange(pos as int, n as int);
        let e = find_byte(s, 10, pos);
        let line = subrange_vec(s, pos, e);
        out.push(line);
        proof {
            lemma_find_byte_from_is(suf, 10, 0, e - pos);
            assert(suf.subrange(0, e - pos) =~= s@.subrange(pos as int, e as int));
            assert(lines_views(out@) =~= lines_views(prev).push(line@));
        }
        if e < n {
            proof {
                assert(suf.subrange(e - pos + 1, suf.len() as int) =~= s@.subrange(
                    e + 1,
                    n as int,
                ));
                assert(split_lines_spec(suf) == seq![line@] + split_lines_spec(
                    s@.subrange(e + 1, n as int),
                ));
                assert(lines_views(out@) + split_lines_spec(s@.subrange(e + 1, n as int))
                    =~= lines_views(prev) + split_lines_spec(suf));
            }
            pos = e + 1;
        } else {
            pos = n;
            proof {
                assert(split_lines_spec(suf) == seq![line@]);
                assert(s@.subrange(pos as int, n as int) =~= Seq::<u8>::empty());
                assert(lines_views(out@) + split_lines_spec(s@.subrange(pos as int, n as int))
                    =~= lines_views(prev) + split_lines_spec(suf));
            }
        }
    }
    proof {
        assert(s@.subrange(pos as int, n as int) =~= Seq::<u8>::empty());
        assert(lines_views(out@) + split_lines_spec(Seq::<u8>::empty()) =~= lines_views(out@));
    }
    out
}

} // verus!
