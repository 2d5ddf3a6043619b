//! Decoding a front-matter header into a raw event record.
//!
//! The header is key/value data in the block style: one `key: value` entry
//! per line, a nested mapping indented under a bare `key:` line, a literal
//! block under `key: |`, and one-line flow mappings `{k: v, k: v}`.  Values
//! are plain text, double-quoted text, literal blocks, or mappings.  The
//! cover image key is accepted in both its snake-case and camel-case form.
//! In double-quoted text a backslash escapes a quote, a backslash, `n` or
//! `t`; nothing else is escaped.
//! Unknown keys are skipped with their values.  Any text that does not fit
//! this shape fails the decode, and with it the whole scan.

use crate::models::{
    bytes_view, metadata_view, raw_image_view, Metadata, RawEvent, RawEventView, RawImage,
    RawImageView,
};
use crate::text::{
    blank, bytes_eq, find_byte, find_byte_from, is_blank, is_key_colon, key_colon, key_colon_from,
    lines_views, skip_byte, skip_byte_from, subrange_vec, trim_end_from, trim_end_in,
};
use vstd::prelude::*;
use vstd::slice::slice_subrange;

verus! {

/// Why a header failed to decode.
#[derive(Debug, Clone, Copy, PartialEq, Eq, Structural)]
pub enum ParseError {
    /// A line or a flow value does not fit the grammar.
    Structure,
    /// A field or a metadata key appears twice.
    DuplicateKey,
    /// `name` or `time` is missing, or a cover image lacks `url` or `alt`.
    MissingField,
    /// A mapping stands where text is expected, or text where a mapping is.
    WrongType,
    /// The `time` field is not a `YYYY-MM-DD` date.
    BadDate,
    /// The `recipe_id` field is not a UUID in the hyphenated or simple form.
    BadId,
}

pub open spec fn key_cover_snake() -> Seq<u8> {
    seq![99u8, 111u8, 118u8, 101u8, 114u8, 95u8, 105u8, 109u8, 97u8, 103u8, 101u8]
}

pub open spec fn key_cover_camel() -> Seq<u8> {
    seq![99u8, 111u8, 118u8, 101u8, 114u8, 73u8, 109u8, 97u8, 103u8, 101u8]
}

pub open spec fn key_name() -> Seq<u8> {
    seq![110u8, 97u8, 109u8, 101u8]
}

pub open spec fn key_description() -> Seq<u8> {
    seq![100u8, 101u8, 115u8, 99u8, 114u8, 105u8, 112u8, 116u8, 105u8, 111u8, 110u8]
}

pub open spec fn key_time() -> Seq<u8> {
    seq![116u8, 105u8, 109u8, 101u8]
}

pub open spec fn key_recipe_id() -> Seq<u8> {
    seq![114u8, 101u8, 99u8, 105u8, 112u8, 101u8, 95u8, 105u8, 100u8]
}

pub open spec fn key_metadata() -> Seq<u8> {
    seq![109u8, 101u8, 116u8, 97u8, 100u8, 97u8, 116u8, 97u8]
}

pub open spec fn key_url() -> Seq<u8> {
    seq![117u8, 114u8, 108u8]
}

pub open spec fn key_alt() -> Seq<u8> {
    seq![97u8, 108u8, 116u8]
}

fn is_key_cover_snake(k: &[u8]) -> (r: bool)
    ensures
        r == (k@ == key_cover_snake()),
{
    let lit: [u8; 11] = [99, 111, 118, 101, 114, 95, 105, 109, 97, 103, 101];
    proof {
        assert(lit@ =~= key_cover_snake());
    }
    bytes_eq(k, lit.as_slice())
}

fn is_key_cover_camel(k: &[u8]) -> (r: bool)
    ensures
        r == (k@ == key_cover_camel()),
{
    let lit: [u8; 10] = [99, 111, 118, 101, 114, 73, 109, 97, 103, 101];
    proof {
        assert(lit@ =~= key_cover_camel());
    }
    bytes_eq(k, lit.as_slice())
}

fn is_key_name(k: &[u8]) -> (r: bool)
    ensures
        r == (k@ == key_name()),
{
    let lit: [u8; 4] = [110, 97, 109, 101];
    proof {
        assert(lit@ =~= key_name());
    }
    bytes_eq(k, lit.as_slice())
}

fn is_key_description(k: &[u8]) -> (r: bool)
    ensures
        r == (k@ == key_description()),
{
    let lit: [u8; 11] = [100, 101, 115, 99, 114, 105, 112, 116, 105, 111, 110];
    proof {
        assert(lit@ =~= key_description());
    }
    bytes_eq(k, lit.as_slice())
}

fn is_key_time(k: &[u8]) -> (r: bool)
    ensures
        r == (k@ == key_time()),
{
    let lit: [u8; 4] = [116, 105, 109, 101];
    proof {
        assert(lit@ =~= key_time());
    }
    bytes_eq(k, lit.as_slice())
}

fn is_key_recipe_id(k: &[u8]) -> (r: bool)
    ensures
        r == (k@ == key_recipe_id()),
{
    let lit: [u8; 9] = [114, 101, 99, 105, 112, 101, 95, 105, 100];
    proof {
        assert(lit@ =~= key_recipe_id());
    }
    bytes_eq(k, lit.as_slice())
}

fn is_key_metadata(k: &[u8]) -> (r: bool)
    ensures
        r == (k@ == key_metadata()),
{
    let lit: [u8; 8] = [109, 101, 116, 97, 100, 97, 116, 97];
    proof {
        assert(lit@ =~= key_metadata());
    }
    bytes_eq(k, lit.as_slice())
}

fn is_key_url(k: &[u8]) -> (r: bool)
    ensures
        r == (k@ == key_url()),
{
    let lit: [u8; 3] = [117, 114, 108];
    proof {
        assert(lit@ =~= key_url());
    }
    bytes_eq(k, lit.as_slice())
}

fn is_key_alt(k: &[u8]) -> (r: bool)
    ensures
        r == (k@ == key_alt()),
{
    let lit: [u8; 3] = [97, 108, 116];
    proof {
        assert(lit@ =~= key_alt());
    }
    bytes_eq(k, lit.as_slice())
}

/// The value written on an entry line, classified by its first byte.
pub enum LineVal {
    /// Nothing after the colon: a nested mapping or a null follows.
    Empty,
    /// A lone `|`: a literal block follows on the next lines.
    Literal,
    /// A one-line `{k: v, ...}` mapping.
    FlowMap(Vec<(Vec<u8>, Vec<u8>)>),
    /// Plain or double-quoted text.
    Scalar(Vec<u8>),
}

pub ghost enum LineValV {
    Empty,
    Literal,
    FlowMap(Seq<(Seq<u8>, Seq<u8>)>),
    Scalar(Seq<u8>),
}

pub open spec fn pairs_views(ps: Seq<(Vec<u8>, Vec<u8>)>) -> Seq<(Seq<u8>, Seq<u8>)> {
    ps.map_values(|p: (Vec<u8>, Vec<u8>)| (p.0@, p.1@))
}

impl View for LineVal {
    type V = LineValV;

    open spec fn view(&self) -> LineValV {
        match self {
            LineVal::Empty => LineValV::Empty,
            LineVal::Literal => LineValV::Literal,
            LineVal::FlowMap(ps) => LineValV::FlowMap(pairs_views(ps@)),
            LineVal::Scalar(s) => LineValV::Scalar(s@),
        }
    }
}

/// The text after the colon at `c`, leading and trailing spaces dropped.
pub open spec fn value_region(l: Seq<u8>, c: int) -> Seq<u8>
    recommends
        0 <= c < l.len(),
{
    let v0 = skip_byte_from(l, 32, c + 1);
    let sub = l.subrange(v0, l.len() as int);
    sub.subrange(0, trim_end_from(sub))
}

/// The content of a double-quoted scalar read from `i`, just after the
/// opening quote, and the index of the closing quote.  A backslash escapes a
/// quote, a backslash, `n` for a newline or `t` for a tab; any other escape,
/// or a quote that never closes, fails.
pub open spec fn quoted_from(s: Seq<u8>, i: int) -> Option<(Seq<u8>, int)>
    decreases s.len() - i,
{
    if i < 0 || i >= s.len() {
        None
    } else if s[i] == 34 {
        Some((seq![], i))
    } else if s[i] == 92 {
        if i + 1 < s.len() && (s[i + 1] == 34 || s[i + 1] == 92 || s[i + 1] == 110 || s[i + 1]
            == 116) {
            let c: u8 = if s[i + 1] == 110 {
                10u8
            } else if s[i + 1] == 116 {
                9u8
            } else {
                s[i + 1]
            };
            match quoted_from(s, i + 2) {
                Some(p) => Some((seq![c] + p.0, p.1)),
                None => None,
            }
        } else {
            None
        }
    } else {
        match quoted_from(s, i + 1) {
            Some(p) => Some((seq![s[i]] + p.0, p.1)),
            None => None,
        }
    }
}

pub proof fn lemma_quoted_from_bounds(s: Seq<u8>, i: int)
    requires
        0 <= i <= s.len(),
    ensures
        match quoted_from(s, i) {
            Some(p) => i <= p.1 < s.len() && s[p.1] == 34,
            None => true,
        },
    decreases s.len() - i,
{
    if i < s.len() {
        if s[i] == 34 {
        } else if s[i] == 92 {
            if i + 1 < s.len() && (s[i + 1] == 34 || s[i + 1] == 92 || s[i + 1] == 110 || s[i + 1]
                == 116) {
                lemma_quoted_from_bounds(s, i + 2);
            }
        } else {
            lemma_quoted_from_bounds(s, i + 1);
        }
    }
}

/// Reads a double-quoted scalar from `i`, just after the opening quote;
/// returns its decoded content and the index of the closing quote.
fn quoted(s: &[u8], i: usize) -> (r: Option<(Vec<u8>, usize)>)
    requires
        i <= s@.len(),
    ensures
        match (r, quoted_from(s@, i as int)) {
            (Some(p), Some(sp)) => p.0@ == sp.0 && p.1 as int == sp.1 && i <= p.1 < s@.len(),
            (None, None) => true,
            _ => false,
        },
    decreases s@.len() - i,
{
    let n = s.len();
    if i >= n {
        return None;
    }
    let b = s[i];
    if b == 34 {
        let out: Vec<u8> = Vec::new();
        proof {
            assert(out@ =~= Seq::<u8>::empty());
        }
        return Some((out, i));
    }
    if b == 92 {
        if i + 1 < n && (s[i + 1] == 34 || s[i + 1] == 92 || s[i + 1] == 110 || s[i + 1] == 116) {
            let e = s[i + 1];
            let c: u8 = if e == 110 {
                10
            } else if e == 116 {
                9
            } else {
                e
            };
            match quoted(s, i + 2) {
                Some((rest, q)) => {
                    let ghost restv = rest@;
                    let mut out = rest;
                    out.insert(0, c);
                    proof {
                        assert(out@ =~= seq![c] + restv);
                    }
                    Some((out, q))
                },
                None => None,
            }
        } else {
            None
        }
    } else {
        match quoted(s, i + 1) {
            Some((rest, q)) => {
                let ghost restv = rest@;
                let mut out = rest;
                out.insert(0, b);
                proof {
                    assert(out@ =~= seq![b] + restv);
                }
                Some((out, q))
            },
            None => None,
        }
    }
}

/// The entries of a one-line flow mapping, read from `i` on; `None` where the
/// text does not fit the flow grammar.
pub open spec fn flow_pairs(v: Seq<u8>, i: int) -> Option<Seq<(Seq<u8>, Seq<u8>)>>
    decreases v.len() - i,
{
    if i < 0 || i > v.len() {
        None
    } else {
        let j = skip_byte_from(v, 32, i);
        if j >= v.len() {
            Some(seq![])
        } else {
            let c = key_colon_from(v, j);
            if c >= v.len() || find_byte_from(v, 44, j) < c {
                None
            } else {
                let keyr = v.subrange(j, c);
                let key = keyr.subrange(0, trim_end_from(keyr));
                let w = skip_byte_from(v, 32, c + 1);
                if w < v.len() && v[w] == 34 {
                    match quoted_from(v, w + 1) {
                        None => None,
                        Some(p) => {
                            let value = p.0;
                            let t = skip_byte_from(v, 32, p.1 + 1);
                            if t >= v.len() {
                                Some(seq![(key, value)])
                            } else if v[t] == 44 {
                                proof {
                                    lemma_flow_bounds(v, i);
                                }
                                match flow_pairs(v, t + 1) {
                                    Some(rest) => Some(seq![(key, value)] + rest),
                                    None => None,
                                }
                            } else {
                                None
                            }
                        },
                    }
                } else {
                    let e = find_byte_from(v, 44, w);
                    let seg = v.subrange(w, e);
                    let value = seg.subrange(0, trim_end_from(seg));
                    if e >= v.len() {
                        Some(seq![(key, value)])
                    } else {
                        proof {
                            lemma_flow_bounds(v, i);
                        }
                        match flow_pairs(v, e + 1) {
                            Some(rest) => Some(seq![(key, value)] + rest),
                            None => None,
                        }
                    }
                }
            }
        }
    }
}

/// Bounds of the scanners used by the flow grammar, for its termination.
pub proof fn lemma_flow_bounds(v: Seq<u8>, i: int)
    requires
        0 <= i <= v.len(),
    ensures
        i <= skip_byte_from(v, 32, i) <= v.len(),
        skip_byte_from(v, 32, i) < v.len() ==> {
            let j = skip_byte_from(v, 32, i);
            let c = key_colon_from(v, j);
            j <= c <= v.len() && (c < v.len() ==> {
                let w = skip_byte_from(v, 32, c + 1);
                c + 1 <= w <= v.len() && i < w && w <= find_byte_from(v, 44, w) <= v.len() && (w
                    < v.len() ==> match quoted_from(v, w + 1) {
                    Some(p) => w + 1 <= p.1 < v.len() && p.1 + 1 <= skip_byte_from(v, 32, p.1 + 1)
                        <= v.len(),
                    None => true,
                })
            })
        },
{
    crate::text::lemma_skip_byte_from(v, 32, i);
    let j = skip_byte_from(v, 32, i);
    if j < v.len() {
        crate::text::lemma_key_colon_from(v, j);
        let c = key_colon_from(v, j);
        if c < v.len() {
            crate::text::lemma_skip_byte_from(v, 32, c + 1);
            let w = skip_byte_from(v, 32, c + 1);
            crate::text::lemma_find_byte_from(v, 44, w);
            if w < v.len() {
                lemma_quoted_from_bounds(v, w + 1);
                match quoted_from(v, w + 1) {
                    Some(p) => {
                        crate::text::lemma_skip_byte_from(v, 32, p.1 + 1);
                    },
                    None => {},
                }
            }
        }
    }
}

/// Reads the entries of a one-line flow mapping from `i` on.
pub fn flow_pairs_exec(v: &[u8], i: usize) -> (r: Option<Vec<(Vec<u8>, Vec<u8>)>>)
    requires
        i <= v@.len(),
    ensures
        match (r, flow_pairs(v@, i as int)) {
            (Some(ps), Some(sps)) => pairs_views(ps@) == sps,
            (None, None) => true,
            _ => false,
        },
    decreases v@.len() - i,
{
    let n = v.len();
    let j = skip_byte(v, 32, i);
    if j >= n {
        proof {
            assert(pairs_views(Seq::<(Vec<u8>, Vec<u8>)>::empty()) =~= Seq::<(
                Seq<u8>,
                Seq<u8>,
            )>::empty());
        }
        return Some(Vec::new());
    }
    let c = key_colon(v, j);
    if c >= n {
        return None;
    }
    let cm = find_byte(v, 44, j);
    if cm < c {
        return None;
    }
    let kt = trim_end_in(v, j, c);
    let key = subrange_vec(v, j, kt);
    proof {
        let keyr = v@.subrange(j as int, c as int);
        assert(keyr.subrange(0, trim_end_from(keyr)) =~= v@.subrange(j as int, kt as int));
    }
    let w = skip_byte(v, 32, c + 1);
    if w < n && v[w] == 34 {
        let (value, q) = match quoted(v, w + 1) {
            None => {
                return None;
            },
            Some(p) => p,
        };
        let t = skip_byte(v, 32, q + 1);
        if t >= n {
            let mut out: Vec<(Vec<u8>, Vec<u8>)> = Vec::new();
            let ghost kv = (key@, value@);
            out.push((key, value));
            proof {
                assert(pairs_views(out@) =~= seq![kv]);
            }
            Some(out)
        } else if v[t] == 44 {
            match flow_pairs_exec(v, t + 1) {
                Some(rest) => {
                    let ghost restv = pairs_views(rest@);
                    let ghost kv = (key@, value@);
                    let mut out = rest;
                    out.insert(0, (key, value));
                    proof {
                        assert(pairs_views(out@) =~= seq![kv] + restv);
                    }
                    Some(out)
                },
                None => None,
            }
        } else {
            None
        }
    } else {
        let e = find_byte(v, 44, w);
        let vt = trim_end_in(v, w, e);
        let value = subrange_vec(v, w, vt);
        proof {
            let seg = v@.subrange(w as int, e as int);
            assert(seg.subrange(0, trim_end_from(seg)) =~= v@.subrange(w as int, vt as int));
        }
        if e >= n {
            let mut out: Vec<(Vec<u8>, Vec<u8>)> = Vec::new();
            let ghost kv = (key@, value@);
            out.push((key, value));
            proof {
                assert(pairs_views(out@) =~= seq![kv]);
            }
            Some(out)
        } else {
            match flow_pairs_exec(v, e + 1) {
                Some(rest) => {
                    let ghost restv = pairs_views(rest@);
                    let ghost kv = (key@, value@);
                    let mut out = rest;
                    out.insert(0, (key, value));
                    proof {
                        assert(pairs_views(out@) =~= seq![kv] + restv);
                    }
                    Some(out)
                },
                None => None,
            }
        }
    }
}

/// The value written after the key colon at `c` of an entry line.
pub open spec fn line_value(l: Seq<u8>, c: int) -> Result<LineValV, ParseError>
    recommends
        0 <= c < l.len(),
{
    let v = value_region(l, c);
    if v.len() == 0 {
        Ok(LineValV::Empty)
    } else if v.len() == 1 && v[0] == 124 {
        Ok(LineValV::Literal)
    } else if v[0] == 123 {
        if v[v.len() - 1] == 125 {
            match flow_pairs(v.subrange(1, v.len() - 1), 0) {
                Some(ps) => Ok(LineValV::FlowMap(ps)),
                None => Err(ParseError::Structure),
            }
        } else {
            Err(ParseError::Structure)
        }
    } else if v[0] == 34 {
        match quoted_from(v, 1) {
            Some(p) => if p.1 == v.len() - 1 {
                Ok(LineValV::Scalar(p.0))
            } else {
                Err(ParseError::Structure)
            },
            None => Err(ParseError::Structure),
        }
    } else {
        Ok(LineValV::Scalar(v))
    }
}

/// Reads the value after the key colon at `c` of an entry line.
pub fn line_value_exec(l: &[u8], c: usize) -> (r: Result<LineVal, ParseError>)
    requires
        c < l@.len(),
    ensures
        match (r, line_value(l@, c as int)) {
            (Ok(lv), Ok(slv)) => lv@ == slv,
            (Err(e), Err(se)) => e == se,
            _ => false,
        },
{
    let n = l.len();
    let v0 = skip_byte(l, 32, c + 1);
    let ve = trim_end_in(l, v0, n);
    let ghost v = value_region(l@, c as int);
    proof {
        let sub = l@.subrange(v0 as int, n as int);
        assert(sub.subrange(0, trim_end_from(sub)) =~= l@.subrange(v0 as int, ve as int));
        assert(v == l@.subrange(v0 as int, ve as int));
    }
    if ve == v0 {
        return Ok(LineVal::Empty);
    }
    if ve - v0 == 1 && l[v0] == 124 {
        return Ok(LineVal::Literal);
    }
    if l[v0] == 123 {
        if l[ve - 1] == 125 {
            let inner = slice_subrange(l, v0 + 1, ve - 1);
            proof {
                assert(inner@ =~= v.subrange(1, v.len() - 1));
            }
            match flow_pairs_exec(inner, 0) {
                Some(ps) => Ok(LineVal::FlowMap(ps)),
                None => Err(ParseError::Structure),
            }
        } else {
            Err(ParseError::Structure)
        }
    } else if l[v0] == 34 {
        let reg = slice_subrange(l, v0, ve);
        proof {
            assert(reg@ =~= v);
        }
        match quoted(reg, 1) {
            Some((content, q)) => {
                if q == ve - v0 - 1 {
                    Ok(LineVal::Scalar(content))
                } else {
                    Err(ParseError::Structure)
                }
            },
            None => Err(ParseError::Structure),
        }
    } else {
        let value = subrange_vec(l, v0, ve);
        proof {
            assert(value@ =~= v);
        }
        Ok(LineVal::Scalar(value))
    }
}

/// Number of leading spaces of a line.
pub open spec fn indent_of(l: Seq<u8>) -> int {
    skip_byte_from(l, 32, 0)
}

/// Number of leading spaces of a line.
pub fn indent(l: &[u8]) -> (r: usize)
    ensures
        r as int == indent_of(l@),
        r <= l@.len(),
{
    skip_byte(l, 32, 0)
}

/// Index of the first non-blank line at or after `i`; the number of lines
/// where there is none.
pub open spec fn skip_blank_from(ls: Seq<Seq<u8>>, i: int) -> int
    decreases ls.len() - i,
{
    if i < 0 || i >= ls.len() {
        ls.len() as int
    } else if !is_blank(ls[i]) {
        i
    } else {
        skip_blank_from(ls, i + 1)
    }
}

pub proof fn lemma_skip_blank_from_is(ls: Seq<Seq<u8>>, i: int, k: int)
    requires
        0 <= i <= k <= ls.len(),
        forall|t: int| i <= t < k ==> is_blank(#[trigger] ls[t]),
        k < ls.len() ==> !is_blank(ls[k]),
    ensures
        skip_blank_from(ls, i) == k,
    decreases k - i,
{
    if i < k {
        lemma_skip_blank_from_is(ls, i + 1, k);
    }
}

/// Decides whether line `t` is blank.
fn blank_at(lines: &Vec<Vec<u8>>, t: usize) -> (r: bool)
    requires
        t < lines@.len(),
    ensures
        r == is_blank(lines_views(lines@)[t as int]),
{
    blank(lines[t].as_slice())
}

/// First non-blank line at or after `from`, or the number of lines.
pub fn skip_blank(lines: &Vec<Vec<u8>>, from: usize) -> (r: usize)
    requires
        from <= lines@.len(),
    ensures
        r as int == skip_blank_from(lines_views(lines@), from as int),
        from <= r <= lines@.len(),
        r < lines@.len() ==> !is_blank(lines_views(lines@)[r as int]),
{
    let n = lines.len();
    let mut i: usize = from;
    while i < n && blank_at(lines, i)
        invariant
            n == lines@.len(),
            from <= i <= n,
            forall|t: int| from <= t < i ==> is_blank(#[trigger] lines_views(lines@)[t]),
        decreases n - i,
    {
        i = i + 1;
    }
    proof {
        lemma_skip_blank_from_is(lines_views(lines@), from as int, i as int);
    }
    i
}

/// A line belongs to the region under an entry at indent `bound`: it is blank
/// or indented deeper.
pub open spec fn region_continues(l: Seq<u8>, bound: int) -> bool {
    is_blank(l) || indent_of(l) > bound
}

/// Index of the first line at or after `i` that leaves the region at indent
/// `bound`; the number of lines where there is none.
pub open spec fn region_end_from(ls: Seq<Seq<u8>>, i: int, bound: int) -> int
    decreases ls.len() - i,
{
    if i < 0 || i >= ls.len() {
        ls.len() as int
    } else if !region_continues(ls[i], bound) {
        i
    } else {
        region_end_from(ls, i + 1, bound)
    }
}

pub proof fn lemma_region_end_from_is(ls: Seq<Seq<u8>>, i: int, bound: int, k: int)
    requires
        0 <= i <= k <= ls.len(),
        forall|t: int| i <= t < k ==> region_continues(#[trigger] ls[t], bound),
        k < ls.len() ==> !region_continues(ls[k], bound),
    ensures
        region_end_from(ls, i, bound) == k,
    decreases k - i,
{
    if i < k {
        lemma_region_end_from_is(ls, i + 1, bound, k);
    }
}

/// Decides whether line `t` stays inside the region at indent `bound`.
fn region_continues_at(lines: &Vec<Vec<u8>>, t: usize, bound: usize) -> (r: bool)
    requires
        t < lines@.len(),
    ensures
        r == region_continues(lines_views(lines@)[t as int], bound as int),
{
    let l = lines[t].as_slice();
    if blank(l) {
        true
    } else {
        indent(l) > bound
    }
}

/// First line at or after `from` that leaves the region at indent `bound`,
/// or the number of lines.
pub fn region_end(lines: &Vec<Vec<u8>>, from: usize, bound: usize) -> (r: usize)
    requires
        from <= lines@.len(),
    ensures
        r as int == region_end_from(lines_views(lines@), from as int, bound as int),
        from <= r <= lines@.len(),
{
    let n = lines.len();
    let mut i: usize = from;
    while i < n && region_continues_at(lines, i, bound)
        invariant
            n == lines@.len(),
            from <= i <= n,
            forall|t: int| from <= t < i ==> region_continues(
                #[trigger] lines_views(lines@)[t],
                bound as int,
            ),
        decreases n - i,
    {
        i = i + 1;
    }
    proof {
        lemma_region_end_from_is(lines_views(lines@), from as int, bound as int, i as int);
    }
    i
}

/// A content line of a literal block, its indentation dropped.
pub open spec fn strip_indent(l: Seq<u8>, bi: int) -> Seq<u8> {
    if l.len() <= bi {
        seq![]
    } else {
        l.subrange(bi, l.len() as int)
    }
}

/// Trailing empty content lines of a literal block are dropped.
pub open spec fn drop_trailing_empty(ls: Seq<Seq<u8>>) -> Seq<Seq<u8>>
    decreases ls.len(),
{
    if ls.len() == 0 || ls.last().len() != 0 {
        ls
    } else {
        drop_trailing_empty(ls.drop_last())
    }
}

pub proof fn lemma_drop_trailing_empty_is(ls: Seq<Seq<u8>>, m: int)
    requires
        0 <= m <= ls.len(),
        forall|t: int| m <= t < ls.len() ==> #[trigger] ls[t].len() == 0,
        m > 0 ==> ls[m - 1].len() != 0,
    ensures
        drop_trailing_empty(ls) == ls.subrange(0, m),
    decreases ls.len(),
{
    if ls.len() == 0 || ls.last().len() != 0 {
        assert(ls.subrange(0, m) =~= ls);
    } else {
        lemma_drop_trailing_empty_is(ls.drop_last(), m);
        assert(ls.drop_last().subrange(0, m) =~= ls.subrange(0, m));
    }
}

/// The content lines of a literal block, each followed by a newline.
pub open spec fn join_nl(ls: Seq<Seq<u8>>) -> Seq<u8>
    decreases ls.len(),
{
    if ls.len() == 0 {
        seq![]
    } else {
        ls[0] + seq![10u8] + join_nl(ls.subrange(1, ls.len() as int))
    }
}

pub proof fn lemma_join_nl_push(ls: Seq<Seq<u8>>, x: Seq<u8>)
    ensures
        join_nl(ls.push(x)) == join_nl(ls) + x + seq![10u8],
    decreases ls.len(),
{
    if ls.len() == 0 {
        assert(ls.push(x)[0] == x);
        assert(ls.push(x).subrange(1, 1) =~= Seq::<Seq<u8>>::empty());
        assert(join_nl(Seq::<Seq<u8>>::empty()) =~= Seq::<u8>::empty());
        assert(join_nl(ls.push(x)) =~= join_nl(ls) + x + seq![10u8]);
    } else {
        assert(ls.push(x).subrange(1, ls.len() as int + 1) =~= ls.subrange(
            1,
            ls.len() as int,
        ).push(x));
        lemma_join_nl_push(ls.subrange(1, ls.len() as int), x);
        assert(ls.push(x)[0] == ls[0]);
        assert(join_nl(ls.push(x)) == ls[0] + seq![10u8] + join_nl(
            ls.subrange(1, ls.len() as int).push(x),
        ));
        assert(join_nl(ls.push(x)) =~= join_nl(ls) + x + seq![10u8]);
    }
}

/// The value of a literal block opened at indent `ind`, read from line `i`
/// on, and the line where reading resumes.  The block's own indent is that of
/// its first non-blank line; the block ends before the first non-blank line
/// indented less; trailing empty content lines are dropped and every kept
/// line is followed by a newline.
pub open spec fn block_scalar(ls: Seq<Seq<u8>>, i: int, ind: int) -> (Seq<u8>, int)
    recommends
        0 <= i <= ls.len(),
{
    let j = skip_blank_from(ls, i);
    if j >= ls.len() || indent_of(ls[j]) <= ind {
        (seq![], i)
    } else {
        let bi = indent_of(ls[j]);
        let k = region_end_from(ls, i, bi - 1);
        let stripped = Seq::new((k - i) as nat, |t: int| strip_indent(ls[i + t], bi));
        (join_nl(drop_trailing_empty(stripped)), k)
    }
}

/// Reads a literal block opened at indent `ind` from line `i` on; returns its
/// value and the line where reading resumes.
pub fn block_scalar_exec(lines: &Vec<Vec<u8>>, i: usize, ind: usize) -> (r: (Vec<u8>, usize))
    requires
        i <= lines@.len(),
    ensures
        r.0@ == block_scalar(lines_views(lines@), i as int, ind as int).0,
        r.1 as int == block_scalar(lines_views(lines@), i as int, ind as int).1,
        i <= r.1 <= lines@.len(),
{
    let ghost ls = lines_views(lines@);
    let n = lines.len();
    let j = skip_blank(lines, i);
    if j >= n {
        return (Vec::new(), i);
    }
    let bi = indent(lines[j].as_slice());
    if bi <= ind {
        return (Vec::new(), i);
    }
    let k = region_end(lines, i, bi - 1);
    let ghost stripped = Seq::new((k - i) as nat, |t: int| strip_indent(ls[i + t], bi as int));
    let mut k2: usize = k;
    while k2 > i && lines[k2 - 1].len() <= bi
        invariant
            i <= k2 <= k <= lines@.len(),
            ls == lines_views(lines@),
            stripped == Seq::new((k - i) as nat, |t: int| strip_indent(ls[i + t], bi as int)),
            forall|t: int| k2 - i <= t < k - i ==> #[trigger] stripped[t].len() == 0,
        decreases k2,
    {
        k2 = k2 - 1;
    }
    proof {
        lemma_drop_trailing_empty_is(stripped, k2 - i);
    }
    let ghost content = stripped.subrange(0, k2 - i);
    let mut out: Vec<u8> = Vec::new();
    let mut t: usize = i;
    proof {
        assert(content.subrange(0, 0) =~= Seq::<Seq<u8>>::empty());
    }
    while t < k2
        invariant
            i <= t <= k2 <= k <= lines@.len(),
            ls == lines_views(lines@),
            content == stripped.subrange(0, k2 - i),
            stripped == Seq::new((k - i) as nat, |u: int| strip_indent(ls[i + u], bi as int)),
            out@ == join_nl(content.subrange(0, t - i)),
        decreases k2 - t,
    {
        let ghost prefix = content.subrange(0, t - i);
        let line = lines[t].as_slice();
        if line.len() > bi {
            let mut piece = subrange_vec(line, bi, line.len());
            out.append(&mut piece);
        }
        out.push(10);
        proof {
            lemma_join_nl_push(prefix, content[t - i]);
            assert(content.subrange(0, t + 1 - i) =~= prefix.push(content[t - i]));
            assert(out@ =~= join_nl(prefix) + content[t - i] + seq![10u8]);
        }
        t = t + 1;
    }
    proof {
        assert(content.subrange(0, k2 - i) =~= content);
    }
    (out, k)
}

pub proof fn lemma_skip_blank_from_bounds(ls: Seq<Seq<u8>>, i: int)
    requires
        0 <= i <= ls.len(),
    ensures
        i <= skip_blank_from(ls, i) <= ls.len(),
    decreases ls.len() - i,
{
    if i < ls.len() && is_blank(ls[i]) {
        lemma_skip_blank_from_bounds(ls, i + 1);
    }
}

pub proof fn lemma_region_end_from_bounds(ls: Seq<Seq<u8>>, i: int, bound: int)
    requires
        0 <= i <= ls.len(),
    ensures
        i <= region_end_from(ls, i, bound) <= ls.len(),
    decreases ls.len() - i,
{
    if i < ls.len() && region_continues(ls[i], bound) {
        lemma_region_end_from_bounds(ls, i + 1, bound);
    }
}

pub proof fn lemma_block_scalar_bounds(ls: Seq<Seq<u8>>, i: int, ind: int)
    requires
        0 <= i <= ls.len(),
    ensures
        i <= block_scalar(ls, i, ind).1 <= ls.len(),
{
    lemma_skip_blank_from_bounds(ls, i);
    let j = skip_blank_from(ls, i);
    if j < ls.len() && indent_of(ls[j]) > ind {
        lemma_region_end_from_bounds(ls, i, indent_of(ls[j]) - 1);
    }
}

/// Some entry of the mapping already carries this key.
pub open spec fn pairs_has_key(ps: Seq<(Seq<u8>, Seq<u8>)>, key: Seq<u8>) -> bool {
    exists|t: int| 0 <= t < ps.len() && ps[t].0 == key
}

/// Decides whether some entry of the mapping already carries this key.
fn has_key(ps: &Vec<(Vec<u8>, Vec<u8>)>, key: &[u8]) -> (r: bool)
    ensures
        r == pairs_has_key(pairs_views(ps@), key@),
{
    let n = ps.len();
    let mut t: usize = 0;
    while t < n
        invariant
            n == ps@.len(),
            t <= n,
            forall|u: int| 0 <= u < t ==> pairs_views(ps@)[u].0 != key@,
        decreases n - t,
    {
        if bytes_eq(ps[t].0.as_slice(), key) {
            proof {
                assert(pairs_views(ps@)[t as int].0 == key@);
            }
            return true;
        }
        t = t + 1;
    }
    false
}

/// The entries of a metadata mapping at entry indent `eind` under a parent at
/// indent `pind`, read from line `i` on, added to `acc`; and the line where
/// reading resumes.  Values must be text; a repeated key is an error.
pub open spec fn parse_meta_spec(
    ls: Seq<Seq<u8>>,
    i: int,
    pind: int,
    eind: int,
    acc: Seq<(Seq<u8>, Seq<u8>)>,
) -> Result<(Seq<(Seq<u8>, Seq<u8>)>, int), ParseError>
    decreases ls.len() - i,
{
    if i < 0 || i > ls.len() {
        Err(ParseError::Structure)
    } else if i == ls.len() {
        Ok((acc, i))
    } else {
        let l = ls[i];
        if is_blank(l) {
            parse_meta_spec(ls, i + 1, pind, eind, acc)
        } else {
            let d = indent_of(l);
            if d <= pind {
                Ok((acc, i))
            } else if d != eind {
                Err(ParseError::Structure)
            } else {
                let c = key_colon_from(l, d);
                if c >= l.len() {
                    Err(ParseError::Structure)
                } else {
                    let keyr = l.subrange(d, c);
                    let key = keyr.subrange(0, trim_end_from(keyr));
                    if key.len() == 0 {
                        Err(ParseError::Structure)
                    } else {
                        match line_value(l, c) {
                            Err(e) => Err(e),
                            Ok(lv) => if pairs_has_key(acc, key) {
                                Err(ParseError::DuplicateKey)
                            } else {
                                match lv {
                                    LineValV::Empty => Err(ParseError::WrongType),
                                    LineValV::FlowMap(_) => Err(ParseError::WrongType),
                                    LineValV::Literal => {
                                        proof {
                                            lemma_block_scalar_bounds(ls, i + 1, eind);
                                        }
                                        let bs = block_scalar(ls, i + 1, eind);
                                        parse_meta_spec(ls, bs.1, pind, eind, acc.push((key, bs.0)))
                                    },
                                    LineValV::Scalar(v) => parse_meta_spec(
                                        ls,
                                        i + 1,
                                        pind,
                                        eind,
                                        acc.push((key, v)),
                                    ),
                                }
                            },
                        }
                    }
                }
            }
        }
    }
}

/// Reads the entries of a metadata mapping; see [`parse_meta_spec`].
pub fn parse_meta(
    lines: &Vec<Vec<u8>>,
    i: usize,
    pind: usize,
    eind: usize,
    acc: Vec<(Vec<u8>, Vec<u8>)>,
) -> (r: Result<(Vec<(Vec<u8>, Vec<u8>)>, usize), ParseError>)
    requires
        i <= lines@.len(),
    ensures
        match (r, parse_meta_spec(
            lines_views(lines@),
            i as int,
            pind as int,
            eind as int,
            pairs_views(acc@),
        )) {
            (Ok(p), Ok(sp)) => pairs_views(p.0@) == sp.0 && p.1 as int == sp.1 && i <= p.1
                <= lines@.len(),
            (Err(e), Err(se)) => e == se,
            _ => false,
        },
    decreases lines@.len() - i,
{
    let ghost ls = lines_views(lines@);
    let n = lines.len();
    if i == n {
        return Ok((acc, i));
    }
    let l = lines[i].as_slice();
    proof {
        assert(ls[i as int] == l@);
    }
    if blank(l) {
        return parse_meta(lines, i + 1, pind, eind, acc);
    }
    let d = indent(l);
    if d <= pind {
        return Ok((acc, i));
    }
    if d != eind {
        return Err(ParseError::Structure);
    }
    let c = key_colon(l, d);
    if c >= l.len() {
        return Err(ParseError::Structure);
    }
    let kt = trim_end_in(l, d, c);
    let key = subrange_vec(l, d, kt);
    proof {
        let keyr = l@.subrange(d as int, c as int);
        assert(keyr.subrange(0, trim_end_from(keyr)) =~= l@.subrange(d as int, kt as int));
    }
    if key.len() == 0 {
        return Err(ParseError::Structure);
    }
    match line_value_exec(l, c) {
        Err(e) => Err(e),
        Ok(lv) => {
            if has_key(&acc, key.as_slice()) {
                return Err(ParseError::DuplicateKey);
            }
            match lv {
                LineVal::Empty => Err(ParseError::WrongType),
                LineVal::FlowMap(_) => Err(ParseError::WrongType),
                LineVal::Literal => {
                    let ghost accv = pairs_views(acc@);
                    let ghost keyv = key@;
                    let (v, k) = block_scalar_exec(lines, i + 1, eind);
                    let ghost vv = v@;
                    let mut acc2 = acc;
                    acc2.push((key, v));
                    proof {
                        assert(pairs_views(acc2@) =~= accv.push((keyv, vv)));
                    }
                    parse_meta(lines, k, pind, eind, acc2)
                },
                LineVal::Scalar(v) => {
                    let ghost accv = pairs_views(acc@);
                    let ghost keyv = key@;
                    let ghost vv = v@;
                    let mut acc2 = acc;
                    acc2.push((key, v));
                    proof {
                        assert(pairs_views(acc2@) =~= accv.push((keyv, vv)));
                    }
                    parse_meta(lines, i + 1, pind, eind, acc2)
                },
            }
        },
    }
}

/// Some key appears twice among the entries.
pub open spec fn pairs_has_dup(ps: Seq<(Seq<u8>, Seq<u8>)>) -> bool {
    exists|t: int| 0 <= t < ps.len() && pairs_has_key(ps.take(t), ps[t].0)
}

/// Decides whether entry `t`'s key appears among the first `t` entries.
fn has_key_upto(ps: &Vec<(Vec<u8>, Vec<u8>)>, t: usize, key: &[u8]) -> (r: bool)
    requires
        t <= ps@.len(),
    ensures
        r == pairs_has_key(pairs_views(ps@).take(t as int), key@),
{
    let mut u: usize = 0;
    while u < t
        invariant
            t <= ps@.len(),
            u <= t,
            forall|w: int| 0 <= w < u ==> pairs_views(ps@)[w].0 != key@,
        decreases t - u,
    {
        if bytes_eq(ps[u].0.as_slice(), key) {
            proof {
                assert(pairs_views(ps@).take(t as int)[u as int].0 == key@);
            }
            return true;
        }
        u = u + 1;
    }
    proof {
        assert(forall|w: int|
            0 <= w < t ==> pairs_views(ps@).take(t as int)[w] == pairs_views(ps@)[w]);
    }
    false
}

/// Decides whether some key appears twice among the entries.
fn has_dup(ps: &Vec<(Vec<u8>, Vec<u8>)>) -> (r: bool)
    ensures
        r == pairs_has_dup(pairs_views(ps@)),
{
    let n = ps.len();
    let mut t: usize = 0;
    while t < n
        invariant
            n == ps@.len(),
            t <= n,
            forall|w: int|
                0 <= w < t ==> !pairs_has_key(
                    pairs_views(ps@).take(w),
                    #[trigger] pairs_views(ps@)[w].0,
                ),
        decreases n - t,
    {
        let key = ps[t].0.as_slice();
        proof {
            assert(pairs_views(ps@)[t as int].0 == ps@[t as int].0@);
        }
        if has_key_upto(ps, t, key) {
            return true;
        }
        t = t + 1;
    }
    false
}

/// The `url` and `alt` entries of a one-line cover image mapping, read from
/// entry `i` on.  Unknown keys are skipped; a `metadata` entry cannot carry a
/// mapping here; a repeated field is an error.
pub open spec fn image_pairs_spec(
    ps: Seq<(Seq<u8>, Seq<u8>)>,
    i: int,
    url: Option<Seq<u8>>,
    alt: Option<Seq<u8>>,
) -> Result<(Option<Seq<u8>>, Option<Seq<u8>>), ParseError>
    decreases ps.len() - i,
{
    if i < 0 || i >= ps.len() {
        Ok((url, alt))
    } else {
        let k = ps[i].0;
        let v = ps[i].1;
        if k == key_url() {
            if url is Some {
                Err(ParseError::DuplicateKey)
            } else {
                image_pairs_spec(ps, i + 1, Some(v), alt)
            }
        } else if k == key_alt() {
            if alt is Some {
                Err(ParseError::DuplicateKey)
            } else {
                image_pairs_spec(ps, i + 1, url, Some(v))
            }
        } else if k == key_metadata() {
            Err(ParseError::WrongType)
        } else {
            image_pairs_spec(ps, i + 1, url, alt)
        }
    }
}

/// A cover image written as a one-line flow mapping: `url` and `alt` are
/// required, no metadata can be written in this form.
pub open spec fn image_of_flow(ps: Seq<(Seq<u8>, Seq<u8>)>) -> Result<RawImageView, ParseError> {
    match image_pairs_spec(ps, 0, None, None) {
        Err(e) => Err(e),
        Ok((url, alt)) => match (url, alt) {
            (Some(u), Some(a)) => Ok(RawImageView { url: u, alt: a, metadata: None }),
            _ => Err(ParseError::MissingField),
        },
    }
}

/// Reads the `url` and `alt` entries of a one-line cover image mapping.
fn image_pairs(
    ps: &Vec<(Vec<u8>, Vec<u8>)>,
    i: usize,
    url: Option<Vec<u8>>,
    alt: Option<Vec<u8>>,
) -> (r: Result<(Option<Vec<u8>>, Option<Vec<u8>>), ParseError>)
    ensures
        match (r, image_pairs_spec(pairs_views(ps@), i as int, bytes_view(url), bytes_view(alt))) {
            (Ok(p), Ok(sp)) => bytes_view(p.0) == sp.0 && bytes_view(p.1) == sp.1,
            (Err(e), Err(se)) => e == se,
            _ => false,
        },
    decreases ps@.len() - i,
{
    let n = ps.len();
    if i >= n {
        return Ok((url, alt));
    }
    proof {
        assert(pairs_views(ps@)[i as int] == (ps@[i as int].0@, ps@[i as int].1@));
    }
    let k = ps[i].0.as_slice();
    if is_key_url(k) {
        if url.is_some() {
            Err(ParseError::DuplicateKey)
        } else {
            let v = subrange_vec(ps[i].1.as_slice(), 0, ps[i].1.len());
            proof {
                assert(v@ =~= ps@[i as int].1@);
            }
            image_pairs(ps, i + 1, Some(v), alt)
        }
    } else if is_key_alt(k) {
        if alt.is_some() {
            Err(ParseError::DuplicateKey)
        } else {
            let v = subrange_vec(ps[i].1.as_slice(), 0, ps[i].1.len());
            proof {
                assert(v@ =~= ps@[i as int].1@);
            }
            image_pairs(ps, i + 1, url, Some(v))
        }
    } else if is_key_metadata(k) {
        Err(ParseError::WrongType)
    } else {
        image_pairs(ps, i + 1, url, alt)
    }
}

/// Reads a cover image from a one-line flow mapping.
fn image_of_flow_exec(ps: &Vec<(Vec<u8>, Vec<u8>)>) -> (r: Result<RawImage, ParseError>)
    ensures
        match (r, image_of_flow(pairs_views(ps@))) {
            (Ok(img), Ok(simg)) => img@ == simg,
            (Err(e), Err(se)) => e == se,
            _ => false,
        },
{
    match image_pairs(ps, 0, None, None) {
        Err(e) => Err(e),
        Ok((url, alt)) => match (url, alt) {
            (Some(u), Some(a)) => Ok(RawImage { url: u, alt: a, metadata: None }),
            _ => Err(ParseError::MissingField),
        },
    }
}

/// A resume index forced into range, so that the reading of a mapping is
/// total whatever index a nested region reports.
pub open spec fn clamp_resume(k: int, lo: int, hi: int) -> int {
    if k < lo {
        lo
    } else if k > hi {
        hi
    } else {
        k
    }
}

/// A cover image mapping at entry indent `eind` under a parent at indent
/// `pind`, read from line `i` on: `url` and `alt` required text, `metadata`
/// an optional nested mapping, unknown keys skipped; and the line where
/// reading resumes.
pub open spec fn parse_image_spec(
    ls: Seq<Seq<u8>>,
    i: int,
    pind: int,
    eind: int,
    url: Option<Seq<u8>>,
    alt: Option<Seq<u8>>,
    md: Option<Seq<(Seq<u8>, Seq<u8>)>>,
) -> Result<(RawImageView, int), ParseError>
    decreases ls.len() - i,
{
    if i < 0 || i > ls.len() {
        Err(ParseError::Structure)
    } else if i == ls.len() {
        match (url, alt) {
            (Some(u), Some(a)) => Ok((RawImageView { url: u, alt: a, metadata: md }, i)),
            _ => Err(ParseError::MissingField),
        }
    } else {
        let l = ls[i];
        if is_blank(l) {
            parse_image_spec(ls, i + 1, pind, eind, url, alt, md)
        } else {
            let d = indent_of(l);
            if d <= pind {
                match (url, alt) {
                    (Some(u), Some(a)) => Ok((RawImageView { url: u, alt: a, metadata: md }, i)),
                    _ => Err(ParseError::MissingField),
                }
            } else if d != eind {
                Err(ParseError::Structure)
            } else {
                let c = key_colon_from(l, d);
                if c >= l.len() {
                    Err(ParseError::Structure)
                } else {
                    let keyr = l.subrange(d, c);
                    let key = keyr.subrange(0, trim_end_from(keyr));
                    if key.len() == 0 {
                        Err(ParseError::Structure)
                    } else {
                        match line_value(l, c) {
                            Err(e) => Err(e),
                            Ok(lv) => if key == key_url() {
                                if url is Some {
                                    Err(ParseError::DuplicateKey)
                                } else {
                                    match lv {
                                        LineValV::Scalar(v) => parse_image_spec(
                                            ls,
                                            i + 1,
                                            pind,
                                            eind,
                                            Some(v),
                                            alt,
                                            md,
                                        ),
                                        LineValV::Literal => {
                                            proof {
                                                lemma_block_scalar_bounds(ls, i + 1, eind);
                                            }
                                            let bs = block_scalar(ls, i + 1, eind);
                                            parse_image_spec(
                                                ls,
                                                bs.1,
                                                pind,
                                                eind,
                                                Some(bs.0),
                                                alt,
                                                md,
                                            )
                                        },
                                        _ => Err(ParseError::WrongType),
                                    }
                                }
                            } else if key == key_alt() {
                                if alt is Some {
                                    Err(ParseError::DuplicateKey)
                                } else {
                                    match lv {
                                        LineValV::Scalar(v) => parse_image_spec(
                                            ls,
                                            i + 1,
                                            pind,
                                            eind,
                                            url,
                                            Some(v),
                                            md,
                                        ),
                                        LineValV::Literal => {
                                            proof {
                                                lemma_block_scalar_bounds(ls, i + 1, eind);
                                            }
                                            let bs = block_scalar(ls, i + 1, eind);
                                            parse_image_spec(
                                                ls,
                                                bs.1,
                                                pind,
                                                eind,
                                                url,
                                                Some(bs.0),
                                                md,
                                            )
                                        },
                                        _ => Err(ParseError::WrongType),
                                    }
                                }
                            } else if key == key_metadata() {
                                if md is Some {
                                    Err(ParseError::DuplicateKey)
                                } else {
                                    match lv {
                                        LineValV::Empty => {
                                            proof {
                                                lemma_skip_blank_from_bounds(ls, i + 1);
                                            }
                                            let j = skip_blank_from(ls, i + 1);
                                            if j < ls.len() && indent_of(ls[j]) > eind {
                                                match parse_meta_spec(
                                                    ls,
                                                    j,
                                                    eind,
                                                    indent_of(ls[j]),
                                                    seq![],
                                                ) {
                                                    Err(e) => Err(e),
                                                    Ok(p) => parse_image_spec(
                                                        ls,
                                                        clamp_resume(p.1, i + 1, ls.len() as int),
                                                        pind,
                                                        eind,
                                                        url,
                                                        alt,
                                                        Some(p.0),
                                                    ),
                                                }
                                            } else {
                                                parse_image_spec(ls, i + 1, pind, eind, url, alt, md)
                                            }
                                        },
                                        LineValV::FlowMap(ps) => if pairs_has_dup(ps) {
                                            Err(ParseError::DuplicateKey)
                                        } else {
                                            parse_image_spec(ls, i + 1, pind, eind, url, alt, Some(ps))
                                        },
                                        _ => Err(ParseError::WrongType),
                                    }
                                }
                            } else {
                                match lv {
                                    LineValV::Empty => {
                                        proof {
                                            lemma_region_end_from_bounds(ls, i + 1, eind);
                                        }
                                        parse_image_spec(
                                            ls,
                                            region_end_from(ls, i + 1, eind),
                                            pind,
                                            eind,
                                            url,
                                            alt,
                                            md,
                                        )
                                    },
                                    LineValV::Literal => {
                                        proof {
                                            lemma_block_scalar_bounds(ls, i + 1, eind);
                                        }
                                        parse_image_spec(
                                            ls,
                                            block_scalar(ls, i + 1, eind).1,
                                            pind,
                                            eind,
                                            url,
                                            alt,
                                            md,
                                        )
                                    },
                                    _ => parse_image_spec(ls, i + 1, pind, eind, url, alt, md),
                                }
                            },
                        }
                    }
                }
            }
        }
    }
}

/// Reads a cover image mapping; see [`parse_image_spec`].
#[verifier::rlimit(80)]
pub fn parse_image(
    lines: &Vec<Vec<u8>>,
    i: usize,
    pind: usize,
    eind: usize,
    url: Option<Vec<u8>>,
    alt: Option<Vec<u8>>,
    md: Option<Metadata>,
) -> (r: Result<(RawImage, usize), ParseError>)
    requires
        i <= lines@.len(),
    ensures
        match (r, parse_image_spec(
            lines_views(lines@),
            i as int,
            pind as int,
            eind as int,
            bytes_view(url),
            bytes_view(alt),
            metadata_view(md),
        )) {
            (Ok(p), Ok(sp)) => p.0@ == sp.0 && p.1 as int == sp.1 && i <= p.1 <= lines@.len(),
            (Err(e), Err(se)) => e == se,
            _ => false,
        },
    decreases lines@.len() - i,
{
    let ghost ls = lines_views(lines@);
    let n = lines.len();
    if i == n {
        return match (url, alt) {
            (Some(u), Some(a)) => Ok((RawImage { url: u, alt: a, metadata: md }, i)),
            _ => Err(ParseError::MissingField),
        };
    }
    let l = lines[i].as_slice();
    proof {
        assert(ls[i as int] == l@);
    }
    if blank(l) {
        return parse_image(lines, i + 1, pind, eind, url, alt, md);
    }
    let d = indent(l);
    if d <= pind {
        return match (url, alt) {
            (Some(u), Some(a)) => Ok((RawImage { url: u, alt: a, metadata: md }, i)),
            _ => Err(ParseError::MissingField),
        };
    }
    if d != eind {
        return Err(ParseError::Structure);
    }
    let c = key_colon(l, d);
    if c >= l.len() {
        return Err(ParseError::Structure);
    }
    let kt = trim_end_in(l, d, c);
    let key = subrange_vec(l, d, kt);
    proof {
        let keyr = l@.subrange(d as int, c as int);
        assert(keyr.subrange(0, trim_end_from(keyr)) =~= l@.subrange(d as int, kt as int));
    }
    if key.len() == 0 {
        return Err(ParseError::Structure);
    }
    match line_value_exec(l, c) {
        Err(e) => Err(e),
        Ok(lv) => {
            if is_key_url(key.as_slice()) {
                if url.is_some() {
                    Err(ParseError::DuplicateKey)
                } else {
                    match lv {
                        LineVal::Scalar(v) => parse_image(lines, i + 1, pind, eind, Some(v), alt, md),
                        LineVal::Literal => {
                            let (v, k) = block_scalar_exec(lines, i + 1, eind);
                            parse_image(lines, k, pind, eind, Some(v), alt, md)
                        },
                        _ => Err(ParseError::WrongType),
                    }
                }
            } else if is_key_alt(key.as_slice()) {
                if alt.is_some() {
                    Err(ParseError::DuplicateKey)
                } else {
                    match lv {
                        LineVal::Scalar(v) => parse_image(lines, i + 1, pind, eind, url, Some(v), md),
                        LineVal::Literal => {
                            let (v, k) = block_scalar_exec(lines, i + 1, eind);
                            parse_image(lines, k, pind, eind, url, Some(v), md)
                        },
                        _ => Err(ParseError::WrongType),
                    }
                }
            } else if is_key_metadata(key.as_slice()) {
                if md.is_some() {
                    Err(ParseError::DuplicateKey)
                } else {
                    match lv {
                        LineVal::Empty => {
                            let j = skip_blank(lines, i + 1);
                            if j < n && indent(lines[j].as_slice()) > eind {
                                proof {
                                    assert(ls[j as int] == lines@[j as int]@);
                                }
                                let bi = indent(lines[j].as_slice());
                                let ghost em = pairs_views(Seq::<(Vec<u8>, Vec<u8>)>::empty());
                                proof {
                                    assert(em =~= Seq::<(Seq<u8>, Seq<u8>)>::empty());
                                }
                                match parse_meta(lines, j, eind, bi, Vec::new()) {
                                    Err(e) => Err(e),
                                    Ok((ps, k)) => {
                                        proof {
                                            assert(clamp_resume(k as int, i + 1, ls.len() as int)
                                                == k as int);
                                        }
                                        parse_image(
                                            lines,
                                            k,
                                            pind,
                                            eind,
                                            url,
                                            alt,
                                            Some(Metadata(ps)),
                                        )
                                    },
                                }
                            } else {
                                parse_image(lines, i + 1, pind, eind, url, alt, md)
                            }
                        },
                        LineVal::FlowMap(ps) => {
                            if has_dup(&ps) {
                                Err(ParseError::DuplicateKey)
                            } else {
                                parse_image(lines, i + 1, pind, eind, url, alt, Some(Metadata(ps)))
                            }
                        },
                        _ => Err(ParseError::WrongType),
                    }
                }
            } else {
                match lv {
                    LineVal::Empty => {
                        let k = region_end(lines, i + 1, eind);
                        parse_image(lines, k, pind, eind, url, alt, md)
                    },
                    LineVal::Literal => {
                        let (_v, k) = block_scalar_exec(lines, i + 1, eind);
                        parse_image(lines, k, pind, eind, url, alt, md)
                    },
                    _ => parse_image(lines, i + 1, pind, eind, url, alt, md),
                }
            }
        },
    }
}

/// A front-matter header, read from line `i` on with the fields gathered so
/// far: entries at indent zero, `name` and `time` required, the cover image
/// key accepted in snake or camel case, unknown keys skipped, a repeated
/// field an error.  The record's body is left empty here; the caller fills
/// it with the text after the closing delimiter.
pub open spec fn parse_event_spec(
    ls: Seq<Seq<u8>>,
    i: int,
    cover: Option<RawImageView>,
    name: Option<Seq<u8>>,
    desc: Option<Seq<u8>>,
    time: Option<crate::date::Date>,
    rid: Option<u128>,
    md: Option<Seq<(Seq<u8>, Seq<u8>)>>,
) -> Result<RawEventView, ParseError>
    decreases ls.len() - i,
{
    if i < 0 || i > ls.len() {
        Err(ParseError::Structure)
    } else if i == ls.len() {
        match (name, time) {
            (Some(nm), Some(tm)) => Ok(
                RawEventView {
                    cover_image: cover,
                    name: nm,
                    description: desc,
                    time: tm,
                    recipe_id: rid,
                    metadata: md,
                    content: seq![],
                },
            ),
            _ => Err(ParseError::MissingField),
        }
    } else {
        let l = ls[i];
        if is_blank(l) {
            parse_event_spec(ls, i + 1, cover, name, desc, time, rid, md)
        } else {
            let d = indent_of(l);
            if d != 0 {
                Err(ParseError::Structure)
            } else {
                let c = key_colon_from(l, d);
                if c >= l.len() {
                    Err(ParseError::Structure)
                } else {
                    let keyr = l.subrange(d, c);
                    let key = keyr.subrange(0, trim_end_from(keyr));
                    if key.len() == 0 {
                        Err(ParseError::Structure)
                    } else {
                        match line_value(l, c) {
                            Err(e) => Err(e),
                            Ok(lv) => if key == key_cover_snake() || key == key_cover_camel() {
                                if cover is Some {
                                    Err(ParseError::DuplicateKey)
                                } else {
                                    match lv {
                                        LineValV::Empty => {
                                            proof {
                                                lemma_skip_blank_from_bounds(ls, i + 1);
                                            }
                                            let j = skip_blank_from(ls, i + 1);
                                            if j < ls.len() && indent_of(ls[j]) > 0 {
                                                match parse_image_spec(
                                                    ls,
                                                    j,
                                                    0,
                                                    indent_of(ls[j]),
                                                    None,
                                                    None,
                                                    None,
                                                ) {
                                                    Err(e) => Err(e),
                                                    Ok(p) => parse_event_spec(
                                                        ls,
                                                        clamp_resume(p.1, i + 1, ls.len() as int),
                                                        Some(p.0),
                                                        name,
                                                        desc,
                                                        time,
                                                        rid,
                                                        md,
                                                    ),
                                                }
                                            } else {
                                                parse_event_spec(
                                                    ls,
                                                    i + 1,
                                                    cover,
                                                    name,
                                                    desc,
                                                    time,
                                                    rid,
                                                    md,
                                                )
                                            }
                                        },
                                        LineValV::FlowMap(ps) => match image_of_flow(ps) {
                                            Err(e) => Err(e),
                                            Ok(img) => parse_event_spec(
                                                ls,
                                                i + 1,
                                                Some(img),
                                                name,
                                                desc,
                                                time,
                                                rid,
                                                md,
                                            ),
                                        },
                                        _ => Err(ParseError::WrongType),
                                    }
                                }
                            } else if key == key_name() {
                                if name is Some {
                                    Err(ParseError::DuplicateKey)
                                } else {
                                    match lv {
                                        LineValV::Scalar(v) => parse_event_spec(
                                            ls,
                                            i + 1,
                                            cover,
                                            Some(v),
                                            desc,
                                            time,
                                            rid,
                                            md,
                                        ),
                                        LineValV::Literal => {
                                            proof {
                                                lemma_block_scalar_bounds(ls, i + 1, 0);
                                            }
                                            let bs = block_scalar(ls, i + 1, 0);
                                            parse_event_spec(
                                                ls,
                                                bs.1,
                                                cover,
                                                Some(bs.0),
                                                desc,
                                                time,
                                                rid,
                                                md,
                                            )
                                        },
                                        _ => Err(ParseError::WrongType),
                                    }
                                }
                            } else if key == key_description() {
                                if desc is Some {
                                    Err(ParseError::DuplicateKey)
                                } else {
                                    match lv {
                                        LineValV::Scalar(v) => parse_event_spec(
                                            ls,
                                            i + 1,
                                            cover,
                                            name,
                                            Some(v),
                                            time,
                                            rid,
                                            md,
                                        ),
                                        LineValV::Literal => {
                                            proof {
                                                lemma_block_scalar_bounds(ls, i + 1, 0);
                                            }
                                            let bs = block_scalar(ls, i + 1, 0);
                                            parse_event_spec(
                                                ls,
                                                bs.1,
                                                cover,
                                                name,
                                                Some(bs.0),
                                                time,
                                                rid,
                                                md,
                                            )
                                        },
                                        LineValV::Empty => {
                                            proof {
                                                lemma_skip_blank_from_bounds(ls, i + 1);
                                            }
                                            let j = skip_blank_from(ls, i + 1);
                                            if j < ls.len() && indent_of(ls[j]) > 0 {
                                                Err(ParseError::WrongType)
                                            } else {
                                                parse_event_spec(
                                                    ls,
                                                    i + 1,
                                                    cover,
                                                    name,
                                                    desc,
                                                    time,
                                                    rid,
                                                    md,
                                                )
                                            }
                                        },
                                        _ => Err(ParseError::WrongType),
                                    }
                                }
                            } else if key == key_time() {
                                if time is Some {
                                    Err(ParseError::DuplicateKey)
                                } else {
                                    match lv {
                                        LineValV::Scalar(v) => match crate::date::parse_date(v) {
                                            Some(dt) => parse_event_spec(
                                                ls,
                                                i + 1,
                                                cover,
                                                name,
                                                desc,
                                                Some(dt),
                                                rid,
                                                md,
                                            ),
                                            None => Err(ParseError::BadDate),
                                        },
                                        LineValV::Literal => {
                                            proof {
                                                lemma_block_scalar_bounds(ls, i + 1, 0);
                                            }
                                            let bs = block_scalar(ls, i + 1, 0);
                                            match crate::date::parse_date(bs.0) {
                                                Some(dt) => parse_event_spec(
                                                    ls,
                                                    bs.1,
                                                    cover,
                                                    name,
                                                    desc,
                                                    Some(dt),
                                                    rid,
                                                    md,
                                                ),
                                                None => Err(ParseError::BadDate),
                                            }
                                        },
                                        _ => Err(ParseError::WrongType),
                                    }
                                }
                            } else if key == key_recipe_id() {
                                if rid is Some {
                                    Err(ParseError::DuplicateKey)
                                } else {
                                    match lv {
                                        LineValV::Scalar(v) => match crate::ids::parse_uuid(v) {
                                            Some(u) => parse_event_spec(
                                                ls,
                                                i + 1,
                                                cover,
                                                name,
                                                desc,
                                                time,
                                                Some(u),
                                                md,
                                            ),
                                            None => Err(ParseError::BadId),
                                        },
                                        LineValV::Empty => {
                                            proof {
                                                lemma_skip_blank_from_bounds(ls, i + 1);
                                            }
                                            let j = skip_blank_from(ls, i + 1);
                                            if j < ls.len() && indent_of(ls[j]) > 0 {
                                                Err(ParseError::WrongType)
                                            } else {
                                                parse_event_spec(
                                                    ls,
                                                    i + 1,
                                                    cover,
                                                    name,
                                                    desc,
                                                    time,
                                                    rid,
                                                    md,
                                                )
                                            }
                                        },
                                        _ => Err(ParseError::WrongType),
                                    }
                                }
                            } else if key == key_metadata() {
                                if md is Some {
                                    Err(ParseError::DuplicateKey)
                                } else {
                                    match lv {
                                        LineValV::Empty => {
                                            proof {
                                                lemma_skip_blank_from_bounds(ls, i + 1);
                                            }
                                            let j = skip_blank_from(ls, i + 1);
                                            if j < ls.len() && indent_of(ls[j]) > 0 {
                                                match parse_meta_spec(
                                                    ls,
                                                    j,
                                                    0,
                                                    indent_of(ls[j]),
                                                    seq![],
                                                ) {
                                                    Err(e) => Err(e),
                                                    Ok(p) => parse_event_spec(
                                                        ls,
                                                        clamp_resume(p.1, i + 1, ls.len() as int),
                                                        cover,
                                                        name,
                                                        desc,
                                                        time,
                                                        rid,
                                                        Some(p.0),
                                                    ),
                                                }
                                            } else {
                                                parse_event_spec(
                                                    ls,
                                                    i + 1,
                                                    cover,
                                                    name,
                                                    desc,
                                                    time,
                                                    rid,
                                                    md,
                                                )
                                            }
                                        },
                                        LineValV::FlowMap(ps) => if pairs_has_dup(ps) {
                                            Err(ParseError::DuplicateKey)
                                        } else {
                                            parse_event_spec(
                                                ls,
                                                i + 1,
                                                cover,
                                                name,
                                                desc,
                                                time,
                                                rid,
                                                Some(ps),
                                            )
                                        },
                                        _ => Err(ParseError::WrongType),
                                    }
                                }
                            } else {
                                match lv {
                                    LineValV::Empty => {
                                        proof {
                                            lemma_region_end_from_bounds(ls, i + 1, 0);
                                        }
                                        parse_event_spec(
                                            ls,
                                            region_end_from(ls, i + 1, 0),
                                            cover,
                                            name,
                                            desc,
                                            time,
                                            rid,
                                            md,
                                        )
                                    },
                                    LineValV::Literal => {
                                        proof {
                                            lemma_block_scalar_bounds(ls, i + 1, 0);
                                        }
                                        parse_event_spec(
                                            ls,
                                            block_scalar(ls, i + 1, 0).1,
                                            cover,
                                            name,
                                            desc,
                                            time,
                                            rid,
                                            md,
                                        )
                                    },
                                    _ => parse_event_spec(ls, i + 1, cover, name, desc, time, rid, md),
                                }
                            },
                        }
                    }
                }
            }
        }
    }
}

/// Reads a front-matter header; see [`parse_event_spec`].
#[verifier::rlimit(100)]
pub fn parse_event(
    lines: &Vec<Vec<u8>>,
    i: usize,
    cover: Option<RawImage>,
    name: Option<Vec<u8>>,
    desc: Option<Vec<u8>>,
    time: Option<crate::date::Date>,
    rid: Option<u128>,
    md: Option<Metadata>,
) -> (r: Result<RawEvent, ParseError>)
    requires
        i <= lines@.len(),
    ensures
        match (r, parse_event_spec(
            lines_views(lines@),
            i as int,
            raw_image_view(cover),
            bytes_view(name),
            bytes_view(desc),
            time,
            rid,
            metadata_view(md),
        )) {
            (Ok(re), Ok(sre)) => re@ == sre,
            (Err(e), Err(se)) => e == se,
            _ => false,
        },
    decreases lines@.len() - i,
{
    let ghost ls = lines_views(lines@);
    let n = lines.len();
    if i == n {
        return match (name, time) {
            (Some(nm), Some(tm)) => {
                let re = RawEvent {
                    cover_image: cover,
                    name: nm,
                    description: desc,
                    time: tm,
                    recipe_id: rid,
                    metadata: md,
                    content: Vec::new(),
                };
                proof {
                    assert(re@.content =~= Seq::<u8>::empty());
                }
                Ok(re)
            },
            _ => Err(ParseError::MissingField),
        };
    }
    let l = lines[i].as_slice();
    proof {
        assert(ls[i as int] == l@);
    }
    if blank(l) {
        return parse_event(lines, i + 1, cover, name, desc, time, rid, md);
    }
    let d = indent(l);
    if d != 0 {
        return Err(ParseError::Structure);
    }
    let c = key_colon(l, d);
    if c >= l.len() {
        return Err(ParseError::Structure);
    }
    let kt = trim_end_in(l, d, c);
    let key = subrange_vec(l, d, kt);
    proof {
        let keyr = l@.subrange(d as int, c as int);
        assert(keyr.subrange(0, trim_end_from(keyr)) =~= l@.subrange(d as int, kt as int));
    }
    if key.len() == 0 {
        return Err(ParseError::Structure);
    }
    match line_value_exec(l, c) {
        Err(e) => Err(e),
        Ok(lv) => {
            if is_key_cover_snake(key.as_slice()) || is_key_cover_camel(key.as_slice()) {
                if cover.is_some() {
                    Err(ParseError::DuplicateKey)
                } else {
                    match lv {
                        LineVal::Empty => {
                            let j = skip_blank(lines, i + 1);
                            if j < n && indent(lines[j].as_slice()) > 0 {
                                proof {
                                    assert(ls[j as int] == lines@[j as int]@);
                                }
                                let bi = indent(lines[j].as_slice());
                                match parse_image(lines, j, 0, bi, None, None, None) {
                                    Err(e) => Err(e),
                                    Ok((img, k)) => {
                                        proof {
                                            assert(clamp_resume(k as int, i + 1, ls.len() as int)
                                                == k as int);
                                        }
                                        parse_event(lines, k, Some(img), name, desc, time, rid, md)
                                    },
                                }
                            } else {
                                parse_event(lines, i + 1, cover, name, desc, time, rid, md)
                            }
                        },
                        LineVal::FlowMap(ps) => match image_of_flow_exec(&ps) {
                            Err(e) => Err(e),
                            Ok(img) => parse_event(lines, i + 1, Some(img), name, desc, time, rid, md),
                        },
                        _ => Err(ParseError::WrongType),
                    }
                }
            } else if is_key_name(key.as_slice()) {
                if name.is_some() {
                    Err(ParseError::DuplicateKey)
                } else {
                    match lv {
                        LineVal::Scalar(v) => parse_event(
                            lines,
                            i + 1,
                            cover,
                            Some(v),
                            desc,
                            time,
                            rid,
                            md,
                        ),
                        LineVal::Literal => {
                            let (v, k) = block_scalar_exec(lines, i + 1, 0);
                            parse_event(lines, k, cover, Some(v), desc, time, rid, md)
                        },
                        _ => Err(ParseError::WrongType),
                    }
                }
            } else if is_key_description(key.as_slice()) {
                if desc.is_some() {
                    Err(ParseError::DuplicateKey)
                } else {
                    match lv {
                        LineVal::Scalar(v) => parse_event(
                            lines,
                            i + 1,
                            cover,
                            name,
                            Some(v),
                            time,
                            rid,
                            md,
                        ),
                        LineVal::Literal => {
                            let (v, k) = block_scalar_exec(lines, i + 1, 0);
                            parse_event(lines, k, cover, name, Some(v), time, rid, md)
                        },
                        LineVal::Empty => {
                            let j = skip_blank(lines, i + 1);
                            if j < n && indent(lines[j].as_slice()) > 0 {
                                proof {
                                    assert(ls[j as int] == lines@[j as int]@);
                                }
                                Err(ParseError::WrongType)
                            } else {
                                parse_event(lines, i + 1, cover, name, desc, time, rid, md)
                            }
                        },
                        _ => Err(ParseError::WrongType),
                    }
                }
            } else if is_key_time(key.as_slice()) {
                if time.is_some() {
                    Err(ParseError::DuplicateKey)
                } else {
                    match lv {
                        LineVal::Scalar(v) => match crate::date::deserialize(v.as_slice()) {
                            Some(dt) => parse_event(lines, i + 1, cover, name, desc, Some(dt), rid, md),
                            None => Err(ParseError::BadDate),
                        },
                        LineVal::Literal => {
                            let (v, k) = block_scalar_exec(lines, i + 1, 0);
                            match crate::date::deserialize(v.as_slice()) {
                                Some(dt) => parse_event(lines, k, cover, name, desc, Some(dt), rid, md),
                                None => Err(ParseError::BadDate),
                            }
                        },
                        _ => Err(ParseError::WrongType),
                    }
                }
            } else if is_key_recipe_id(key.as_slice()) {
                if rid.is_some() {
                    Err(ParseError::DuplicateKey)
                } else {
                    match lv {
                        LineVal::Scalar(v) => match crate::ids::decode_uuid(v.as_slice()) {
                            Some(u) => parse_event(lines, i + 1, cover, name, desc, time, Some(u), md),
                            None => Err(ParseError::BadId),
                        },
                        LineVal::Empty => {
                            let j = skip_blank(lines, i + 1);
                            if j < n && indent(lines[j].as_slice()) > 0 {
                                proof {
                                    assert(ls[j as int] == lines@[j as int]@);
                                }
                                Err(ParseError::WrongType)
                            } else {
                                parse_event(lines, i + 1, cover, name, desc, time, rid, md)
                            }
                        },
                        _ => Err(ParseError::WrongType),
                    }
                }
            } else if is_key_metadata(key.as_slice()) {
                if md.is_some() {
                    Err(ParseError::DuplicateKey)
                } else {
                    match lv {
                        LineVal::Empty => {
                            let j = skip_blank(lines, i + 1);
                            if j < n && indent(lines[j].as_slice()) > 0 {
                                proof {
                                    assert(ls[j as int] == lines@[j as int]@);
                                }
                                let bi = indent(lines[j].as_slice());
                                let ghost em = pairs_views(Seq::<(Vec<u8>, Vec<u8>)>::empty());
                                proof {
                                    assert(em =~= Seq::<(Seq<u8>, Seq<u8>)>::empty());
                                }
                                match parse_meta(lines, j, 0, bi, Vec::new()) {
                                    Err(e) => Err(e),
                                    Ok((ps, k)) => {
                                        proof {
                                            assert(clamp_resume(k as int, i + 1, ls.len() as int)
                                                == k as int);
                                        }
                                        parse_event(
                                            lines,
                                            k,
                                            cover,
                                            name,
                                            desc,
                                            time,
                                            rid,
                                            Some(Metadata(ps)),
                                        )
                                    },
                                }
                            } else {
                                parse_event(lines, i + 1, cover, name, desc, time, rid, md)
                            }
                        },
                        LineVal::FlowMap(ps) => {
                            if has_dup(&ps) {
                                Err(ParseError::DuplicateKey)
                            } else {
                                parse_event(
                                    lines,
                                    i + 1,
                                    cover,
                                    name,
                                    desc,
                                    time,
                                    rid,
                                    Some(Metadata(ps)),
                                )
                            }
                        },
                        _ => Err(ParseError::WrongType),
                    }
                }
            } else {
                match lv {
                    LineVal::Empty => {
                        let k = region_end(lines, i + 1, 0);
                        parse_event(lines, k, cover, name, desc, time, rid, md)
                    },
                    LineVal::Literal => {
                        let (_v, k) = block_scalar_exec(lines, i + 1, 0);
                        parse_event(lines, k, cover, name, desc, time, rid, md)
                    },
                    _ => parse_event(lines, i + 1, cover, name, desc, time, rid, md),
                }
            }
        },
    }
}

/// The raw event record a front-matter header block denotes, its body left
/// empty.
pub open spec fn decode_header(ls: Seq<Seq<u8>>) -> Result<RawEventView, ParseError> {
    parse_event_spec(ls, 0, None, None, None, None, None, None)
}

/// Decodes a front-matter header block into a raw event record; the body is
/// left empty for the caller to fill.
pub fn decode_raw_event(header: &[u8]) -> (r: Result<RawEvent, ParseError>)
    ensures
        match (r, decode_header(crate::text::split_lines_spec(header@))) {
            (Ok(re), Ok(sre)) => re@ == sre,
            (Err(e), Err(se)) => e == se,
            _ => false,
        },
{
    let lines = crate::text::split_lines(header);
    parse_event(&lines, 0, None, None, None, None, None, None)
}

} // verus!
