//! Front-matter framing: deciding whether a document carries a header block
//! and splitting it into the header and the body.
//!
//! A document is framed when its first line is the delimiter, a line of
//! exactly three dashes, and a second such line follows.  The text between
//! the delimiters is the header; the text after the closing delimiter line is
//! the body, verbatim.  A document with no opening delimiter, or with no
//! closing one, is skipped: it yields no record and no error.

use crate::header::{decode_header, parse_event, ParseError};
use crate::models::{RawEvent, RawEventView};
use crate::text::{
    find_byte, find_byte_from, lemma_find_byte_from, split_lines, split_lines_spec, subrange_vec,
};
use vstd::prelude::*;
use vstd::slice::slice_subrange;

verus! {

/// What one document contributes to a scan: nothing, one record, or an error
/// that aborts the scan.
pub ghost enum DocOutcome {
    Skipped,
    Parsed(RawEventView),
    Failed(ParseError),
}

/// Start position of the first delimiter line at or after `pos`: a line of
/// exactly three dashes.  The length of `s` where there is none.
pub open spec fn delim_line_from(s: Seq<u8>, pos: int) -> int
    decreases s.len() - pos,
{
    if pos < 0 || pos >= s.len() {
        s.len() as int
    } else {
        let e = find_byte_from(s, 10, pos);
        if e - pos == 3 && s[pos] == 45 && s[pos + 1] == 45 && s[pos + 2] == 45 {
            pos
        } else if e >= s.len() {
            s.len() as int
        } else {
            proof {
                lemma_find_byte_from(s, 10, pos);
            }
            delim_line_from(s, e + 1)
        }
    }
}

/// First delimiter line at or after `from`, or the length of `s`.
pub fn delim_line(s: &[u8], from: usize) -> (r: usize)
    requires
        from <= s@.len(),
    ensures
        r as int == delim_line_from(s@, from as int),
        from <= r <= s@.len(),
    decreases s@.len() - from,
{
    let n = s.len();
    if from >= n {
        return n;
    }
    let e = find_byte(s, 10, from);
    if e - from == 3 && s[from] == 45 && s[from + 1] == 45 && s[from + 2] == 45 {
        from
    } else if e >= n {
        n
    } else {
        delim_line(s, e + 1)
    }
}

/// What a document contributes to a scan.  The first line must be the
/// delimiter, the header runs to the next delimiter line, the body is
/// everything after it.
#[verifier::opaque]
pub open spec fn doc_outcome(doc: Seq<u8>) -> DocOutcome {
    if !(find_byte_from(doc, 10, 0) == 3 && doc.len() >= 3 && doc[0] == 45 && doc[1] == 45
        && doc[2] == 45) {
        DocOutcome::Skipped
    } else {
        let p = delim_line_from(doc, 4);
        if p >= doc.len() {
            DocOutcome::Skipped
        } else {
            let e1 = find_byte_from(doc, 10, p);
            let body_start = if e1 < doc.len() {
                e1 + 1
            } else {
                doc.len() as int
            };
            let header = doc.subrange(4, p);
            match decode_header(split_lines_spec(header)) {
                Ok(rev) => DocOutcome::Parsed(
                    RawEventView {
                        cover_image: rev.cover_image,
                        name: rev.name,
                        description: rev.description,
                        time: rev.time,
                        recipe_id: rev.recipe_id,
                        metadata: rev.metadata,
                        content: doc.subrange(body_start, doc.len() as int),
                    },
                ),
                Err(e) => DocOutcome::Failed(e),
            }
        }
    }
}

/// Reads one document: `Ok(None)` where it is skipped, `Ok(Some(record))`
/// where its header decodes, the decode error otherwise.
pub fn parse_document(doc: &[u8]) -> (r: Result<Option<RawEvent>, ParseError>)
    ensures
        match (r, doc_outcome(doc@)) {
            (Ok(None), DocOutcome::Skipped) => true,
            (Ok(Some(re)), DocOutcome::Parsed(rv)) => re@ == rv,
            (Err(e), DocOutcome::Failed(se)) => e == se,
            _ => false,
        },
{
    proof {
        reveal(doc_outcome);
    }
    let n = doc.len();
    let e0 = find_byte(doc, 10, 0);
    if !(e0 == 3 && doc[0] == 45 && doc[1] == 45 && doc[2] == 45) {
        return Ok(None);
    }
    if n == 3 {
        return Ok(None);
    }
    let p = delim_line(doc, 4);
    if p >= n {
        return Ok(None);
    }
    let e1 = find_byte(doc, 10, p);
    let body_start = if e1 < n {
        e1 + 1
    } else {
        n
    };
    let header = slice_subrange(doc, 4, p);
    let lines = split_lines(header);
    match parse_event(&lines, 0, None, None, None, None, None, None) {
        Err(e) => Err(e),
        Ok(re) => {
            let mut re = re;
            re.content = subrange_vec(doc, body_start, n);
            Ok(Some(re))
        },
    }
}

} // verus!
