use bitebuds::scan::{fetch_events, FileEntry, ScanError};
use bitebuds::{Date, Event, EventStore, ParseError};

fn file(content: &[u8]) -> FileEntry {
    FileEntry { is_file: true, content: content.to_vec() }
}

fn plain_event(id: u128, name: &str, time: Date) -> Event {
    Event {
        id,
        cover_image: None,
        name: name.as_bytes().to_vec(),
        description: None,
        time,
        recipe_id: None,
        images: Vec::new(),
        metadata: None,
    }
}

#[test]
fn three_files_scenario() {
    let entries = vec![
        file(b"---\nname: Pizza\ntime: 2024-01-10\n---\nyum"),
        file(b"---\nname: Tacos\ntime: 2024-01-05\ncoverImage: {url: \"http://x/y.png\", alt: \"tacos\"}\n---\n"),
        file(b"plain text, no front matter\n"),
    ];
    let events = fetch_events(&entries).unwrap();
    assert_eq!(events.len(), 2);
    assert_eq!(events[0].name, b"Pizza".to_vec());
    assert!(events[0].images.is_empty());
    assert_eq!(events[1].name, b"Tacos".to_vec());
    let tacos_id = events[1].id;

    let mut store = EventStore::new(String::new(), None, None);
    store.publish(events);

    let today = Date { year: 2024, month: 1, day: 6 };
    let upcoming = store.get_upcoming_events(today);
    assert_eq!(upcoming.len(), 1, "Tacos is in the past");
    assert_eq!(upcoming[0].name, b"Pizza".to_vec());

    let tacos = store.get_event(tacos_id).expect("lookup is not date-filtered");
    assert_eq!(tacos.name, b"Tacos".to_vec());
    let cover = tacos.cover_image.unwrap();
    assert_eq!(cover.url, b"http://x/y.png".to_vec());
}

#[test]
fn body_is_the_text_after_the_closing_delimiter() {
    let entries = vec![file(b"---\nname: Pizza\ntime: 2024-01-10\n---\nyum")];
    let events = fetch_events(&entries).unwrap();
    assert_eq!(events.len(), 1);
    // The body is dropped at normalization; check it at the parser instead.
    let raw = bitebuds::document::parse_document(b"---\nname: Pizza\ntime: 2024-01-10\n---\n\n yum \n")
        .unwrap()
        .unwrap();
    assert_eq!(raw.content, b"\n yum \n".to_vec());
}

#[test]
fn file_without_delimiter_is_skipped_not_fatal() {
    let entries = vec![
        file(b"no front matter here\n"),
        file(b"---\nname: Pizza\ntime: 2024-01-10\n---\n"),
    ];
    let events = fetch_events(&entries).unwrap();
    assert_eq!(events.len(), 1);
    assert_eq!(events[0].name, b"Pizza".to_vec());
}

#[test]
fn file_without_closing_delimiter_is_skipped() {
    let entries = vec![
        file(b"---\nname: Orphan\ntime: 2024-01-10\n"),
        file(b"---\nname: Pizza\ntime: 2024-01-10\n---\n"),
    ];
    let events = fetch_events(&entries).unwrap();
    assert_eq!(events.len(), 1);
    assert_eq!(events[0].name, b"Pizza".to_vec());
}

#[test]
fn four_dashes_are_not_a_delimiter() {
    let entries = vec![file(b"---\nname: Orphan\ntime: 2024-01-10\n----\nrest\n")];
    let events = fetch_events(&entries).unwrap();
    assert_eq!(events.len(), 0, "the closing delimiter is exactly three dashes");
}

#[test]
fn directories_are_skipped() {
    let entries = vec![
        FileEntry { is_file: false, content: b"---\nname: Dir\ntime: 2024-01-10\n---\n".to_vec() },
        file(b"---\nname: Pizza\ntime: 2024-01-10\n---\n"),
    ];
    let events = fetch_events(&entries).unwrap();
    assert_eq!(events.len(), 1);
    assert_eq!(events[0].name, b"Pizza".to_vec());
}

#[test]
fn malformed_date_aborts_the_whole_scan() {
    let entries = vec![
        file(b"---\nname: Pizza\ntime: 2024-01-10\n---\n"),
        file(b"---\nname: Broken\ntime: not-a-date\n---\n"),
    ];
    assert_eq!(
        fetch_events(&entries),
        Err(ScanError::Decode(ParseError::BadDate))
    );
}

#[test]
fn non_text_content_aborts_the_whole_scan() {
    let entries = vec![
        file(b"---\nname: Pizza\ntime: 2024-01-10\n---\n"),
        file(&[0xff, 0xfe, 0x00]),
    ];
    assert_eq!(fetch_events(&entries), Err(ScanError::NotUtf8));
}

#[test]
fn failed_scan_leaves_the_snapshot_untouched() {
    let mut store = EventStore::default();
    let gen1 = vec![plain_event(1, "Pizza", Date { year: 2024, month: 1, day: 10 })];
    store.publish(gen1);

    let bad = fetch_events(&vec![file(b"---\nname: Broken\ntime: not-a-date\n---\n")]);
    let ok = store.apply_scan(bad);
    assert!(!ok);
    assert!(store.get_event(1).is_some(), "previous snapshot retained");

    let good = fetch_events(&vec![file(b"---\nname: Tacos\ntime: 2024-01-05\n---\n")]);
    let ok = store.apply_scan(good);
    assert!(ok);
    assert!(store.get_event(1).is_none(), "snapshot replaced wholesale");
}

#[test]
fn rescan_is_stable_up_to_ids() {
    let entries = vec![
        file(b"---\nname: Pizza\ntime: 2024-01-10\ndescription: tasty\n---\nyum"),
        file(b"---\nname: Tacos\ntime: 2024-01-05\ncoverImage: {url: \"u\", alt: \"a\"}\n---\n"),
    ];
    let first = fetch_events(&entries).unwrap();
    let second = fetch_events(&entries).unwrap();
    assert_eq!(first.len(), second.len());
    for (a, b) in first.iter().zip(second.iter()) {
        assert_eq!(a.name, b.name);
        assert_eq!(a.description, b.description);
        assert_eq!(a.time, b.time);
        assert_eq!(a.recipe_id, b.recipe_id);
        assert_eq!(a.metadata, b.metadata);
        assert_eq!(a.images, b.images);
        match (&a.cover_image, &b.cover_image) {
            (None, None) => {},
            (Some(x), Some(y)) => {
                assert_eq!(x.url, y.url);
                assert_eq!(x.alt, y.alt);
                assert_eq!(x.metadata, y.metadata);
            },
            _ => panic!("cover image presence differs between scans"),
        }
        assert_ne!(a.id, b.id, "ids are not stable across rescans");
    }
}

#[test]
fn missing_lookup_returns_empty_never_an_error() {
    let mut store = EventStore::default();
    assert_eq!(store.get_event(42), None);
    store.publish(vec![
        plain_event(1, "Pizza", Date { year: 2024, month: 1, day: 10 }),
        plain_event(2, "Tacos", Date { year: 2024, month: 1, day: 5 }),
    ]);
    assert_eq!(store.get_event(99), None);
    assert!(store.get_event(2).is_some());
}

#[test]
fn upcoming_filters_strictly_past_and_sorts_ascending() {
    let mut store = EventStore::default();
    store.publish(vec![
        plain_event(1, "d10", Date { year: 2024, month: 1, day: 10 }),
        plain_event(2, "d05", Date { year: 2024, month: 1, day: 5 }),
        plain_event(3, "d06", Date { year: 2024, month: 1, day: 6 }),
        plain_event(4, "d07", Date { year: 2024, month: 1, day: 7 }),
    ]);
    let today = Date { year: 2024, month: 1, day: 6 };
    let upcoming = store.get_upcoming_events(today);
    let names: Vec<Vec<u8>> = upcoming.iter().map(|o| o.name.clone()).collect();
    assert_eq!(
        names,
        vec![b"d06".to_vec(), b"d07".to_vec(), b"d10".to_vec()],
        "the day itself counts as upcoming; strictly earlier days are excluded"
    );
}

#[test]
fn upcoming_on_empty_store_is_empty() {
    let store = EventStore::default();
    let today = Date { year: 2024, month: 1, day: 6 };
    assert!(store.get_upcoming_events(today).is_empty());
}

#[test]
fn upcoming_overview_packaging() {
    let mut store = EventStore::default();
    store.publish(vec![plain_event(1, "Pizza", Date { year: 2024, month: 1, day: 10 })]);
    let today = Date { year: 2024, month: 1, day: 6 };
    let overview = bitebuds::get_upcoming_events(&store, today);
    assert_eq!(overview.events.len(), 1);
    assert_eq!(overview.events[0].id, 1);
    assert_eq!(overview.events[0].name, b"Pizza".to_vec());
}

#[test]
fn overview_is_a_projection_of_the_event() {
    let e = plain_event(7, "Pizza", Date { year: 2024, month: 1, day: 10 });
    let o: bitebuds::EventOverview = e.clone().into();
    assert_eq!(o.id, e.id);
    assert_eq!(o.name, e.name);
    assert_eq!(o.description, e.description);
    assert_eq!(o.time, e.time);
    assert_eq!(o.cover_image, e.cover_image);
}

#[test]
fn clock_readings_map_to_dates_exactly() {
    assert_eq!(
        bitebuds::clock_date(2024, 1, 10),
        Some(Date { year: 2024, month: 1, day: 10 })
    );
    assert_eq!(bitebuds::clock_date(10000, 1, 1), None);
    assert_eq!(bitebuds::clock_date(-1, 1, 1), None);
    assert_eq!(bitebuds::clock_date(2023, 2, 29), None);
    assert_eq!(
        bitebuds::clock_date(0, 1, 1),
        Some(Date { year: 0, month: 1, day: 1 })
    );
}

#[test]
fn store_against_the_clock() {
    let store = EventStore::default();
    let (today, upcoming) = store.get_upcoming_events_now().expect("the clock names a date");
    assert!(1 <= today.month && today.month <= 12);
    assert!(1 <= today.day && today.day <= 31);
    assert!(today.year >= 2020);
    assert!(upcoming.is_empty());
    let now = bitebuds::current_date().unwrap();
    assert!(now.year >= 2020);
}

#[test]
fn default_store_configuration() {
    let store = EventStore::default();
    assert_eq!(store.path, "articles".to_string());
    assert_eq!(store.url, None);
    assert_eq!(store.url_path, Some("articles/events".to_string()));
    let fresh = EventStore::new(
        "content".to_string(),
        Some("ssh://example/repo.git".to_string()),
        Some("areas/food/events".to_string()),
    );
    assert_eq!(fresh.path, "content".to_string());
    assert_eq!(fresh.url, Some("ssh://example/repo.git".to_string()));
    assert_eq!(fresh.get_event(1), None);
}
