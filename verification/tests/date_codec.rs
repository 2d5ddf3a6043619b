use bitebuds::date::{deserialize, serialize};
use bitebuds::Date;

fn d(year: u16, month: u8, day: u8) -> Date {
    Date::new(year, month, day).unwrap()
}

#[test]
fn serialize_pads_to_fixed_width() {
    assert_eq!(serialize(&d(2024, 1, 10)), b"2024-01-10".to_vec());
    assert_eq!(serialize(&d(33, 11, 3)), b"0033-11-03".to_vec());
    assert_eq!(serialize(&d(0, 1, 1)), b"0000-01-01".to_vec());
    assert_eq!(serialize(&d(9999, 12, 31)), b"9999-12-31".to_vec());
}

#[test]
fn deserialize_reads_the_fixed_form() {
    assert_eq!(deserialize(b"2024-01-10"), Some(d(2024, 1, 10)));
    assert_eq!(deserialize(b"0000-01-01"), Some(d(0, 1, 1)));
    assert_eq!(deserialize(b"9999-12-31"), Some(d(9999, 12, 31)));
}

#[test]
fn deserialize_rejects_everything_else() {
    assert_eq!(deserialize(b"not-a-date"), None);
    assert_eq!(deserialize(b"2024-1-10"), None);
    assert_eq!(deserialize(b"2024/01/10"), None);
    assert_eq!(deserialize(b"2024-01-10 "), None);
    assert_eq!(deserialize(b" 2024-01-10"), None);
    assert_eq!(deserialize(b"2024-01"), None);
    assert_eq!(deserialize(b""), None);
    assert_eq!(deserialize(b"2024-13-01"), None);
    assert_eq!(deserialize(b"2024-00-10"), None);
    assert_eq!(deserialize(b"2024-01-00"), None);
    assert_eq!(deserialize(b"2024-01-32"), None);
    assert_eq!(deserialize(b"2024-04-31"), None);
}

#[test]
fn round_trip_on_sample_dates() {
    let samples = [
        d(2024, 1, 10),
        d(2024, 2, 29),
        d(2000, 2, 29),
        d(0, 1, 1),
        d(9999, 12, 31),
        d(1987, 6, 5),
    ];
    for date in samples {
        assert_eq!(deserialize(&serialize(&date)), Some(date));
    }
}

#[test]
fn leap_years_follow_the_gregorian_rule() {
    assert_eq!(Date::new(2024, 2, 29), Some(d(2024, 2, 29)));
    assert_eq!(Date::new(2000, 2, 29), Some(d(2000, 2, 29)));
    assert_eq!(Date::new(2023, 2, 29), None);
    assert_eq!(Date::new(1900, 2, 29), None);
    assert_eq!(deserialize(b"2023-02-29"), None);
    assert_eq!(deserialize(b"1900-02-29"), None);
    assert_eq!(deserialize(b"2024-02-29"), Some(d(2024, 2, 29)));
}

#[test]
fn calendar_order_is_lexicographic() {
    assert!(d(2024, 1, 5).le(&d(2024, 1, 10)));
    assert!(d(2024, 1, 10).le(&d(2024, 1, 10)));
    assert!(!d(2024, 1, 10).le(&d(2024, 1, 5)));
    assert!(d(2023, 12, 31).le(&d(2024, 1, 1)));
    assert!(d(2024, 1, 31).le(&d(2024, 2, 1)));
}
