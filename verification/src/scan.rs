//! The directory scan: from a batch of directory entries to the canonical
//! event records of one snapshot generation.
//!
//! An entry that is not a regular file is silently skipped, as is a document
//! with no front-matter delimiter.  Content that is not valid text, or a
//! header that fails to decode, aborts the whole scan: no partial results are
//! published.  Every record gets freshly drawn ids, so two scans of the same
//! entries agree on everything but the ids; `lemma_rescan_content_equal`
//! states that law, and `lemma_skipped_file_harmless` states that a skipped
//! document changes nothing for its siblings.

use crate::document::{doc_outcome, parse_document, DocOutcome};
use crate::header::ParseError;
use crate::models::{event_content_eq, event_matches_raw, Event, EventView, RawEventView};
use vstd::prelude::*;
use vstd::utf8::valid_utf8;

verus! {

/// One directory entry handed to the scan: whether it is a regular file, and
/// its content.
pub struct FileEntry {
    pub is_file: bool,
    pub content: Vec<u8>,
}

pub ghost struct FileEntryView {
    pub is_file: bool,
    pub content: Seq<u8>,
}

impl View for FileEntry {
    type V = FileEntryView;

    open spec fn view(&self) -> FileEntryView {
        FileEntryView { is_file: self.is_file, content: self.content@ }
    }
}

/// Why a scan was aborted.
#[derive(Debug, Clone, Copy, PartialEq, Eq, Structural)]
pub enum ScanError {
    /// A regular file's content is not valid text.
    NotUtf8,
    /// A front-matter header failed to decode.
    Decode(ParseError),
}

/// Relies on `std::str::from_utf8`, which accepts exactly the valid UTF-8
/// byte strings.
#[verifier::external_body]
fn utf8_ok(v: &[u8]) -> (r: bool)
    ensures
        r == valid_utf8(v@),
{
    std::str::from_utf8(v).is_ok()
}

/// The raw records of a scan over the given entries, in entry order; or the
/// first error, which aborts the whole scan.
pub open spec fn scan_spec(entries: Seq<FileEntryView>) -> Result<Seq<RawEventView>, ScanError>
    decreases entries.len(),
{
    if entries.len() == 0 {
        Ok(seq![])
    } else {
        let e = entries[0];
        let rest = entries.drop_first();
        if !e.is_file {
            scan_spec(rest)
        } else if !valid_utf8(e.content) {
            Err(ScanError::NotUtf8)
        } else {
            match doc_outcome(e.content) {
                DocOutcome::Skipped => scan_spec(rest),
                DocOutcome::Failed(pe) => Err(ScanError::Decode(pe)),
                DocOutcome::Parsed(rv) => match scan_spec(rest) {
                    Ok(tail) => Ok(seq![rv] + tail),
                    Err(er) => Err(er),
                },
            }
        }
    }
}

/// The events carry, record for record, the content of the given raw records.
pub open spec fn events_match_raws(evs: Seq<EventView>, raws: Seq<RawEventView>) -> bool {
    &&& evs.len() == raws.len()
    &&& forall|t: int| 0 <= t < evs.len() ==> event_matches_raw(#[trigger] evs[t], raws[t])
}

/// Scans a batch of directory entries: applies the front-matter parser to
/// every regular file and normalizes each record under fresh ids.  The result
/// is all-or-nothing: any file whose content is not valid text or whose
/// header fails to decode aborts the scan.
#[verifier::rlimit(80)]
pub fn fetch_events(entries: &Vec<FileEntry>) -> (r: Result<Vec<Event>, ScanError>)
    ensures
        match (r, scan_spec(entries@.map_values(|e: FileEntry| e@))) {
            (Ok(evs), Ok(raws)) => events_match_raws(
                evs@.map_values(|e: Event| e@),
                raws,
            ),
            (Err(e), Err(se)) => e == se,
            _ => false,
        },
{
    let ghost vs = entries@.map_values(|e: FileEntry| e@);
    let n = entries.len();
    let mut out: Vec<Event> = Vec::new();
    let ghost mut praws: Seq<RawEventView> = seq![];
    let mut i: usize = 0;
    proof {
        assert(vs.subrange(0, n as int) =~= vs);
    }
    while i < n
        invariant
            n == entries@.len(),
            vs == entries@.map_values(|e: FileEntry| e@),
            i <= n,
            out@.len() == praws.len(),
            forall|t: int|
                0 <= t < praws.len() ==> event_matches_raw(
                    (#[trigger] out@[t])@,
                    praws[t],
                ),
            match scan_spec(vs.subrange(i as int, n as int)) {
                Ok(tail) => scan_spec(vs) == Ok::<_, ScanError>(praws + tail),
                Err(er) => scan_spec(vs) == Err::<Seq<RawEventView>, _>(er),
            },
        decreases n - i,
    {
        let ghost suf = vs.subrange(i as int, n as int);
        proof {
            assert(vs[i as int] == entries@[i as int]@);
            assert(suf[0] == vs[i as int]);
            assert(suf.drop_first() =~= vs.subrange(i as int + 1, n as int));
        }
        let entry = &entries[i];
        if entry.is_file {
            if !utf8_ok(entry.content.as_slice()) {
                proof {
                    assert(scan_spec(suf) == Err::<Seq<RawEventView>, _>(ScanError::NotUtf8));
                }
                return Err(ScanError::NotUtf8);
            }
            match parse_document(entry.content.as_slice()) {
                Err(pe) => {
                    proof {
                        assert(doc_outcome(suf[0].content) == DocOutcome::Failed(pe));
                        assert(scan_spec(suf) == Err::<Seq<RawEventView>, _>(
                            ScanError::Decode(pe),
                        ));
                    }
                    return Err(ScanError::Decode(pe));
                },
                Ok(None) => {
                    proof {
                        assert(doc_outcome(suf[0].content) is Skipped);
                        assert(scan_spec(suf) == scan_spec(suf.drop_first()));
                    }
                },
                Ok(Some(raw)) => {
                    let ghost rv = raw@;
                    proof {
                        assert(doc_outcome(suf[0].content) == DocOutcome::Parsed(rv));
                    }
                    let ev = Event::from(raw);
                    out.push(ev);
                    proof {
                        let oldp = praws;
                        praws = oldp.push(rv);
                        match scan_spec(suf.drop_first()) {
                            Ok(tail) => {
                                assert(scan_spec(suf) == Ok::<_, ScanError>(seq![rv] + tail));
                                assert(oldp + (seq![rv] + tail) =~= praws + tail);
                            },
                            Err(er) => {
                                assert(scan_spec(suf) == Err::<Seq<RawEventView>, _>(er));
                            },
                        }
                    }
                },
            }
        } else {
            proof {
                assert(scan_spec(suf) == scan_spec(suf.drop_first()));
            }
        }
        i = i + 1;
    }
    proof {
        assert(vs.subrange(n as int, n as int) =~= Seq::<FileEntryView>::empty());
        assert(praws + Seq::<RawEventView>::empty() =~= praws);
    }
    Ok(out)
}

/// Two events normalized from the same raw record agree on everything but
/// the generated ids.
pub proof fn lemma_match_same_raw(a: EventView, b: EventView, r: RawEventView)
    requires
        event_matches_raw(a, r),
        event_matches_raw(b, r),
    ensures
        event_content_eq(a, b),
{
}

/// Scanning the same unchanged entries twice yields record sets equal up to
/// the identity fields: the ids are drawn fresh on every scan, so they are
/// not stable across re-scans, but everything else is a function of the
/// entries alone.
pub proof fn lemma_rescan_content_equal(
    entries: Seq<FileEntryView>,
    evs1: Seq<EventView>,
    evs2: Seq<EventView>,
)
    requires
        match scan_spec(entries) {
            Ok(raws) => events_match_raws(evs1, raws) && events_match_raws(evs2, raws),
            Err(_) => false,
        },
    ensures
        evs1.len() == evs2.len(),
        forall|t: int| 0 <= t < evs1.len() ==> event_content_eq(#[trigger] evs1[t], evs2[t]),
{
    let raws = scan_spec(entries)->Ok_0;
    assert forall|t: int| 0 <= t < evs1.len() implies event_content_eq(
        #[trigger] evs1[t],
        evs2[t],
    ) by {
        lemma_match_same_raw(evs1[t], evs2[t], raws[t]);
    }
}

/// A document that the framing skips — one with no front-matter delimiter,
/// among others — contributes no record and does not abort the scan of its
/// sibling entries: the scan of the batch without it is the same.
pub proof fn lemma_skipped_file_harmless(entries: Seq<FileEntryView>, t: int)
    requires
        0 <= t < entries.len(),
        entries[t].is_file ==> valid_utf8(entries[t].content) && doc_outcome(entries[t].content)
            is Skipped,
    ensures
        scan_spec(entries.remove(t)) == scan_spec(entries),
    decreases entries.len(),
{
    if t == 0 {
        assert(entries.remove(0) =~= entries.drop_first());
    } else {
        let rest = entries.drop_first();
        assert(entries.remove(t).drop_first() =~= rest.remove(t - 1));
        assert(entries.remove(t)[0] == entries[0]);
        lemma_skipped_file_harmless(rest, t - 1);
    }
}

/// A document whose first line is not the front-matter delimiter is skipped
/// by the framing.
pub proof fn lemma_no_delimiter_skipped(doc: Seq<u8>)
    requires
        !(crate::text::find_byte_from(doc, 10, 0) == 3 && doc.len() >= 3 && doc[0] == 45 && doc[1]
            == 45 && doc[2] == 45),
    ensures
        doc_outcome(doc) is Skipped,
{
    reveal(crate::document::doc_outcome);
}

} // verus!
