//! The snapshot store: the record set of the most recent successful scan,
//! served to readers as owned copies.
//!
//! A publish replaces the whole snapshot; a failed scan leaves it untouched.
//! Before the first successful scan the store simply serves an empty
//! snapshot, never an error.  Range queries return only events on or after
//! the given day, sorted by date; point queries return the event with the
//! given id, or nothing.

use crate::date::{lemma_date_le_total, lemma_date_le_trans, Date};
use crate::models::{overview_of, Event, EventOverview, EventOverviewView, EventView};
use crate::scan::ScanError;
use vstd::multiset::Multiset;
use vstd::prelude::*;

verus! {

broadcast use vstd::seq_lib::group_to_multiset_ensures;

/// The mathematical value of a vector of events.
pub open spec fn events_views(evs: Seq<Event>) -> Seq<EventView> {
    evs.map_values(|e: Event| e@)
}

/// The mathematical value of a vector of overviews.
pub open spec fn overviews(os: Seq<EventOverview>) -> Seq<EventOverviewView> {
    os.map_values(|o: EventOverview| o@)
}

pub open spec fn opt_str_view(o: Option<String>) -> Option<Seq<char>> {
    match o {
        Some(s) => Some(s@),
        None => None,
    }
}

/// The event with the given id: the first match in snapshot order, if any.
pub open spec fn find_event(evs: Seq<EventView>, id: u128) -> Option<EventView>
    decreases evs.len(),
{
    if evs.len() == 0 {
        None
    } else if evs[0].id == id {
        Some(evs[0])
    } else {
        find_event(evs.drop_first(), id)
    }
}

proof fn lemma_find_event_skip(evs: Seq<EventView>, id: u128, i: int)
    requires
        0 <= i <= evs.len(),
        forall|t: int| 0 <= t < i ==> (#[trigger] evs[t]).id != id,
    ensures
        find_event(evs, id) == find_event(evs.subrange(i, evs.len() as int), id),
    decreases i,
{
    if i > 0 {
        lemma_find_event_skip(evs.drop_first(), id, i - 1);
        assert(evs.drop_first().subrange(i - 1, evs.drop_first().len() as int) =~= evs.subrange(
            i,
            evs.len() as int,
        ));
    } else {
        assert(evs.subrange(0, evs.len() as int) =~= evs);
    }
}

/// There is no match exactly when no event carries the id.
pub proof fn lemma_find_event_none(evs: Seq<EventView>, id: u128)
    ensures
        (find_event(evs, id) is None) <==> (forall|t: int|
            0 <= t < evs.len() ==> (#[trigger] evs[t]).id != id),
    decreases evs.len(),
{
    if evs.len() > 0 && evs[0].id != id {
        lemma_find_event_none(evs.drop_first(), id);
        if find_event(evs, id) is None {
            assert forall|t: int| 0 <= t < evs.len() implies (#[trigger] evs[t]).id != id by {
                if t >= 1 {
                    assert(evs.drop_first()[t - 1] == evs[t]);
                }
            }
        }
        if forall|t: int| 0 <= t < evs.len() ==> (#[trigger] evs[t]).id != id {
            assert forall|t: int|
                0 <= t < evs.drop_first().len() implies (#[trigger] evs.drop_first()[t]).id
                != id by {
                assert(evs.drop_first()[t] == evs[t + 1]);
            }
        }
    }
}

/// The overview projections, in snapshot order, of the events on or after
/// `today`.
pub open spec fn upcoming_of(evs: Seq<EventView>, today: Date) -> Seq<EventOverviewView>
    decreases evs.len(),
{
    if evs.len() == 0 {
        seq![]
    } else {
        let front = upcoming_of(evs.drop_last(), today);
        if today.spec_le(evs.last().time) {
            front.push(overview_of(evs.last()))
        } else {
            front
        }
    }
}

/// Every upcoming event is on or after the day of the query.
pub proof fn lemma_upcoming_bounds(evs: Seq<EventView>, today: Date)
    ensures
        forall|t: int|
            0 <= t < upcoming_of(evs, today).len() ==> today.spec_le(
                (#[trigger] upcoming_of(evs, today)[t]).time,
            ),
    decreases evs.len(),
{
    if evs.len() > 0 {
        lemma_upcoming_bounds(evs.drop_last(), today);
    }
}

/// The sequence is sorted by date, non-decreasing.
pub open spec fn sorted_by_date(os: Seq<EventOverviewView>) -> bool {
    forall|x: int, y: int| 0 <= x < y < os.len() ==> (#[trigger] os[x]).time.spec_le(
        (#[trigger] os[y]).time,
    )
}

/// The record set a range query returns: sorted by date and, as a multiset,
/// exactly the upcoming events of the snapshot.
pub open spec fn is_upcoming_result(evs: Seq<EventView>, os: Seq<EventOverviewView>, today: Date) -> bool {
    &&& sorted_by_date(os)
    &&& os.to_multiset() == upcoming_of(evs, today).to_multiset()
}

/// The store of the latest snapshot, with the configuration of the remote
/// content repository it is synchronized from.
pub struct EventStore {
    /// Directory of the local working copy of the content.
    pub path: String,
    /// Remote repository locator; absent disables remote sync.
    pub url: Option<String>,
    /// Subdirectory of the repository holding the event documents.
    pub url_path: Option<String>,
    events: Vec<Event>,
}

impl View for EventStore {
    type V = Seq<EventView>;

    closed spec fn view(&self) -> Seq<EventView> {
        events_views(self.events@)
    }
}

impl EventStore {
    /// The configured directory of the local working copy.
    pub closed spec fn spec_path(self) -> Seq<char> {
        self.path@
    }

    /// The configured remote repository locator.
    pub closed spec fn spec_url(self) -> Option<Seq<char>> {
        opt_str_view(self.url)
    }

    /// The configured subdirectory holding the event documents.
    pub closed spec fn spec_url_path(self) -> Option<Seq<char>> {
        opt_str_view(self.url_path)
    }
}

impl EventStore {
    /// A store with an empty snapshot and the given configuration.
    pub fn new(path: String, url: Option<String>, url_path: Option<String>) -> (r: EventStore)
        ensures
            r@ == Seq::<EventView>::empty(),
            r.spec_path() == path@,
            r.spec_url() == opt_str_view(url),
            r.spec_url_path() == opt_str_view(url_path),
    {
        let r = EventStore { path, url, url_path, events: Vec::new() };
        proof {
            assert(r@ =~= Seq::<EventView>::empty());
        }
        r
    }

    /// Atomically replaces the whole snapshot; the configuration stays.
    pub fn publish(&mut self, events: Vec<Event>)
        ensures
            final(self)@ == events_views(events@),
            final(self).spec_path() == old(self).spec_path(),
            final(self).spec_url() == old(self).spec_url(),
            final(self).spec_url_path() == old(self).spec_url_path(),
    {
        self.events = events;
    }

    /// Applies one scan cycle's result: a successful scan replaces the
    /// snapshot, a failed one leaves the previous snapshot untouched.
    pub fn apply_scan(&mut self, scanned: Result<Vec<Event>, ScanError>) -> (ok: bool)
        ensures
            match scanned {
                Ok(evs) => ok && final(self)@ == events_views(evs@),
                Err(_) => !ok && final(self)@ == old(self)@,
            },
            final(self).spec_path() == old(self).spec_path(),
            final(self).spec_url() == old(self).spec_url(),
            final(self).spec_url_path() == old(self).spec_url_path(),
    {
        match scanned {
            Ok(evs) => {
                self.publish(evs);
                true
            },
            Err(_) => false,
        }
    }

    /// Point query: the first event with the given id, as an owned copy, or
    /// nothing where no event carries it — never an error.
    pub fn get_event(&self, event_id: u128) -> (r: Option<Event>)
        ensures
            match r {
                Some(e) => find_event(self@, event_id) == Some(e@),
                None => find_event(self@, event_id) is None,
            },
            (r is None) <==> (forall|t: int|
                0 <= t < self@.len() ==> (#[trigger] self@[t]).id != event_id),
    {
        let n = self.events.len();
        let mut i: usize = 0;
        while i < n
            invariant
                n == self.events@.len(),
                i <= n,
                forall|t: int| 0 <= t < i ==> (#[trigger] self@[t]).id != event_id,
            decreases n - i,
        {
            if self.events[i].id == event_id {
                let e = self.events[i].duplicate();
                proof {
                    lemma_find_event_skip(self@, event_id, i as int);
                    assert(self@.subrange(i as int, n as int)[0] == self@[i as int]);
                    lemma_find_event_none(self@, event_id);
                }
                return Some(e);
            }
            i = i + 1;
        }
        proof {
            lemma_find_event_skip(self@, event_id, n as int);
            assert(self@.subrange(n as int, n as int) =~= Seq::<EventView>::empty());
        }
        None
    }

    /// Range query: the overviews of all events on or after `today`, sorted
    /// ascending by date, as owned copies.  Every event strictly before
    /// `today` is excluded, and none on or after it is lost.
    pub fn get_upcoming_events(&self, today: Date) -> (r: Vec<EventOverview>)
        ensures
            is_upcoming_result(self@, overviews(r@), today),
            forall|t: int| 0 <= t < r@.len() ==> today.spec_le((#[trigger] r@[t])@.time),
    {
        let n = self.events.len();
        let mut pending: Vec<EventOverview> = Vec::new();
        let mut i: usize = 0;
        proof {
            assert(self@.subrange(0, 0) =~= Seq::<EventView>::empty());
            assert(overviews(pending@) =~= upcoming_of(self@.subrange(0, 0), today));
        }
        while i < n
            invariant
                n == self.events@.len(),
                i <= n,
                overviews(pending@) == upcoming_of(self@.subrange(0, i as int), today),
            decreases n - i,
        {
            let ghost pre = self@.subrange(0, i as int);
            let ghost opre = overviews(pending@);
            proof {
                assert(self@.subrange(0, i as int + 1).drop_last() =~= pre);
                assert(self@.subrange(0, i as int + 1).last() == self@[i as int]);
            }
            let e = &self.events[i];
            proof {
                assert(e@ == self@[i as int]);
            }
            if today.le(&e.time) {
                pending.push(e.overview());
                proof {
                    assert(overviews(pending@) =~= opre.push(overview_of(self@[i as int])));
                }
            }
            i = i + 1;
        }
        proof {
            assert(self@.subrange(0, n as int) =~= self@);
        }
        let ghost target = upcoming_of(self@, today);
        proof {
            lemma_upcoming_bounds(self@, today);
            assert(Multiset::<EventOverviewView>::empty().add(overviews(pending@).to_multiset())
                =~= target.to_multiset());
            assert(overviews(Seq::<EventOverview>::empty()) =~= Seq::<EventOverviewView>::empty());
        }
        let mut out: Vec<EventOverview> = Vec::new();
        while pending.len() > 0
            invariant
                overviews(out@).to_multiset().add(overviews(pending@).to_multiset())
                    == target.to_multiset(),
                sorted_by_date(overviews(out@)),
                forall|x: int, y: int|
                    0 <= x < out@.len() && 0 <= y < pending@.len() ==> (#[trigger] out@[x])@.time.spec_le(
                        (#[trigger] pending@[y])@.time,
                    ),
            decreases pending@.len(),
        {
            let m = pending.len();
            let mut best: usize = 0;
            let mut j: usize = 1;
            while j < m
                invariant
                    m == pending@.len(),
                    best < j <= m,
                    1 <= j,
                    forall|t: int|
                        0 <= t < j ==> pending@[best as int]@.time.spec_le(
                            (#[trigger] pending@[t])@.time,
                        ),
                decreases m - j,
            {
                if !(pending[best].time.le(&pending[j].time)) {
                    proof {
                        lemma_date_le_total(pending@[best as int]@.time, pending@[j as int]@.time);
                        let jv = pending@[j as int]@.time;
                        assert forall|t: int|
                            0 <= t < j + 1 implies jv.spec_le((#[trigger] pending@[t])@.time) by {
                            if t < j {
                                lemma_date_le_trans(
                                    pending@[j as int]@.time,
                                    pending@[best as int]@.time,
                                    pending@[t]@.time,
                                );
                            }
                        }
                    }
                    best = j;
                }
                j = j + 1;
            }
            let ghost pv = overviews(pending@);
            let ghost ov = overviews(out@);
            let ghost x = pv[best as int];
            let e = pending.remove(best);
            out.push(e);
            proof {
                assert(e@ == x);
                assert(overviews(pending@) =~= pv.remove(best as int));
                assert(overviews(out@) =~= ov.push(x));
                assert(pv.contains(x)) by {
                    assert(pv[best as int] == x);
                }
                assert(pv.to_multiset().count(x) > 0);
                assert(ov.push(x).to_multiset() =~= ov.to_multiset().insert(x));
                assert(pv.remove(best as int).to_multiset() =~= pv.to_multiset().remove(x));
                assert(ov.to_multiset().insert(x).add(pv.to_multiset().remove(x))
                    =~= ov.to_multiset().add(pv.to_multiset()));
            }
        }
        proof {
            assert(overviews(pending@).to_multiset() =~= Multiset::<EventOverviewView>::empty());
            assert(overviews(out@).to_multiset().add(Multiset::<EventOverviewView>::empty())
                =~= overviews(out@).to_multiset());
            assert forall|t: int| 0 <= t < out@.len() implies today.spec_le(
                (#[trigger] out@[t])@.time,
            ) by {
                let x = overviews(out@)[t];
                assert(overviews(out@).contains(x)) by {
                    assert(overviews(out@)[t] == x);
                }
                assert(target.to_multiset().count(x) > 0);
                assert(target.contains(x));
                let u = choose|u: int| 0 <= u < target.len() && target[u] == x;
                assert(today.spec_le(target[u].time));
            }
        }
        out
    }
}

impl Default for EventStore {
    /// A store with an empty snapshot and the stock configuration: local
    /// content under `articles`, events under `articles/events`, no remote.
    fn default() -> (r: EventStore)
        ensures
            r@ == Seq::<EventView>::empty(),
            r.spec_path() == "articles"@,
            r.spec_url() is None,
            r.spec_url_path() == Some("articles/events"@),
    {
        let r = EventStore {
            path: "articles".to_owned(),
            url: None,
            url_path: Some("articles/events".to_owned()),
            events: Vec::new(),
        };
        proof {
            assert(r@ =~= Seq::<EventView>::empty());
        }
        r
    }
}

/// The overview list handed to the display layer.
#[derive(Debug, Clone, PartialEq, Eq)]
pub struct UpcomingEventsOverview {
    pub events: Vec<EventOverview>,
}

/// The range query packaged for the display layer: the upcoming events of
/// the store's snapshot, sorted ascending by date.
pub fn get_upcoming_events(store: &EventStore, today: Date) -> (r: UpcomingEventsOverview)
    ensures
        is_upcoming_result(store@, overviews(r.events@), today),
{
    UpcomingEventsOverview { events: store.get_upcoming_events(today) }
}

/// Relies on chrono's `Utc::now` and `Datelike`: the month is 1 to 12 and
/// the day 1 to 31, as chrono documents; nothing else is promised of the
/// clock's value.
#[verifier::external_body]
fn now_ymd() -> (r: (i64, u8, u8))
    ensures
        1 <= r.1 <= 12,
        1 <= r.2 <= 31,
{
    let d = chrono::Utc::now().date_naive();
    (
        chrono::Datelike::year(&d) as i64,
        chrono::Datelike::month(&d) as u8,
        chrono::Datelike::day(&d) as u8,
    )
}

/// The calendar date a clock reading names, for every reading: exactly the
/// triples whose year the four-digit textual form can carry and which name a
/// real day of the calendar, and no other.
pub fn clock_date(y: i64, m: u8, d: u8) -> (r: Option<Date>)
    ensures
        (r is Some) == (0 <= y <= 9999 && (Date { year: y as u16, month: m, day: d }).wf()),
        r matches Some(dt) ==> dt == (Date { year: y as u16, month: m, day: d }),
{
    if 0 <= y && y <= 9999 {
        Date::new(y as u16, m, d)
    } else {
        None
    }
}

/// The current calendar date: the clock's reading handed unchanged to
/// [`clock_date`], so a date is returned exactly when the reading names one
/// that the textual form can carry.
pub fn current_date() -> (r: Option<Date>)
    ensures
        r matches Some(d) ==> d.wf(),
{
    let (y, m, d) = now_ymd();
    clock_date(y, m, d)
}

impl EventStore {
    /// Range query against the clock: the upcoming events as of the current
    /// date, together with that date.  Nothing is returned only where the
    /// clock names no date that the textual form can carry.
    pub fn get_upcoming_events_now(&self) -> (r: Option<(Date, Vec<EventOverview>)>)
        ensures
            match r {
                Some(p) => p.0.wf() && is_upcoming_result(self@, overviews(p.1@), p.0),
                None => true,
            },
    {
        match current_date() {
            Some(d) => Some((d, self.get_upcoming_events(d))),
            None => None,
        }
    }
}

} // verus!
