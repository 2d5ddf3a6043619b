use bitebuds::header::{decode_raw_event, ParseError};
use bitebuds::{Date, Event, RawEvent};

#[test]
fn can_parse_event() {
    let raw = r#"coverImage:
  url: "https://cdn-rdb.arla.com/Files/arla-dk/2010638351/0606cf14-3972-4abb-b2c8-faa3249de170.jpg?crop=(0,482,0,-117)&w=1269&h=715&mode=crop&ak=6826258c&hm=f35b5bfe" 
  alt: billede af oksesteg
name: Gammeldags oksesteg
description: |
  God gammeldags oksesteg med en intens og fyldig brun sauce. Gammeldags oksesteg
  er rigtig simremad som gør de fleste glade. Så server en gammeldags oksesteg for
  din gæster... både de unge og de gamle.
time: 2023-03-06"#;

    let raw_event: RawEvent = decode_raw_event(raw.as_bytes()).unwrap();
    let _: Event = Event::from(raw_event);
}

#[test]
fn fields_of_a_full_header() {
    let raw = r#"coverImage:
  url: "https://cdn-rdb.arla.com/Files/arla-dk/2010638351/0606cf14-3972-4abb-b2c8-faa3249de170.jpg?crop=(0,482,0,-117)&w=1269&h=715&mode=crop&ak=6826258c&hm=f35b5bfe" 
  alt: billede af oksesteg
name: Gammeldags oksesteg
description: |
  God gammeldags oksesteg med en intens og fyldig brun sauce. Gammeldags oksesteg
  er rigtig simremad som gør de fleste glade. Så server en gammeldags oksesteg for
  din gæster... både de unge og de gamle.
time: 2023-03-06"#;

    let raw_event = decode_raw_event(raw.as_bytes()).unwrap();
    assert_eq!(raw_event.name, "Gammeldags oksesteg".as_bytes().to_vec());
    assert_eq!(raw_event.time, Date { year: 2023, month: 3, day: 6 });
    let cover = raw_event.cover_image.expect("cover image parsed");
    assert_eq!(
        cover.url,
        "https://cdn-rdb.arla.com/Files/arla-dk/2010638351/0606cf14-3972-4abb-b2c8-faa3249de170.jpg?crop=(0,482,0,-117)&w=1269&h=715&mode=crop&ak=6826258c&hm=f35b5bfe"
            .as_bytes()
            .to_vec()
    );
    assert_eq!(cover.alt, "billede af oksesteg".as_bytes().to_vec());
    let expected_description = "God gammeldags oksesteg med en intens og fyldig brun sauce. Gammeldags oksesteg\ner rigtig simremad som gør de fleste glade. Så server en gammeldags oksesteg for\ndin gæster... både de unge og de gamle.\n";
    assert_eq!(
        raw_event.description,
        Some(expected_description.as_bytes().to_vec())
    );
    assert_eq!(raw_event.recipe_id, None);
    assert_eq!(raw_event.metadata, None);
    assert_eq!(raw_event.content, Vec::<u8>::new());
}

#[test]
fn cover_image_in_flow_form() {
    let raw = b"name: Tacos\ntime: 2024-01-05\ncoverImage: {url: \"http://x/y.png\", alt: \"tacos\"}\n";
    let raw_event = decode_raw_event(raw).unwrap();
    let cover = raw_event.cover_image.expect("cover image parsed");
    assert_eq!(cover.url, b"http://x/y.png".to_vec());
    assert_eq!(cover.alt, b"tacos".to_vec());
    assert_eq!(cover.metadata, None);
}

#[test]
fn cover_image_key_alias() {
    let snake = decode_raw_event(b"cover_image:\n  url: u\n  alt: a\nname: X\ntime: 2024-01-01\n")
        .unwrap();
    let camel = decode_raw_event(b"coverImage:\n  url: u\n  alt: a\nname: X\ntime: 2024-01-01\n")
        .unwrap();
    assert_eq!(snake.cover_image, camel.cover_image);
    assert!(snake.cover_image.is_some());
}

#[test]
fn cover_image_with_nested_metadata() {
    let raw = b"cover_image:\n  url: u\n  alt: a\n  metadata:\n    credit: someone\nname: X\ntime: 2024-01-01\n";
    let raw_event = decode_raw_event(raw).unwrap();
    let cover = raw_event.cover_image.unwrap();
    let md = cover.metadata.unwrap();
    assert_eq!(md.0, vec![(b"credit".to_vec(), b"someone".to_vec())]);
}

#[test]
fn recipe_id_is_a_hyphenated_uuid() {
    let raw = b"name: X\ntime: 2024-01-01\nrecipe_id: 0606cf14-3972-4abb-b2c8-faa3249de170\n";
    let raw_event = decode_raw_event(raw).unwrap();
    assert_eq!(raw_event.recipe_id, Some(0x0606cf1439724abbb2c8faa3249de170u128));
}

#[test]
fn recipe_id_in_the_simple_form() {
    let raw = b"name: X\ntime: 2024-01-01\nrecipe_id: 0606cf1439724abbb2c8faa3249de170\n";
    let raw_event = decode_raw_event(raw).unwrap();
    assert_eq!(raw_event.recipe_id, Some(0x0606cf1439724abbb2c8faa3249de170u128));
    let upper = b"name: X\ntime: 2024-01-01\nrecipe_id: 0606CF1439724ABBB2C8FAA3249DE170\n";
    let raw_event = decode_raw_event(upper).unwrap();
    assert_eq!(raw_event.recipe_id, Some(0x0606cf1439724abbb2c8faa3249de170u128));
}

#[test]
fn recipe_id_forms_outside_the_grammar_are_errors() {
    let braced = b"name: X\ntime: 2024-01-01\nrecipe_id: \"{0606cf14-3972-4abb-b2c8-faa3249de170}\"\n";
    assert_eq!(decode_raw_event(braced), Err(ParseError::BadId));
    let short = b"name: X\ntime: 2024-01-01\nrecipe_id: 0606cf1439724abbb2c8faa3249de17\n";
    assert_eq!(decode_raw_event(short), Err(ParseError::BadId));
    let misplaced = b"name: X\ntime: 2024-01-01\nrecipe_id: 0606cf143-972-4abb-b2c8-faa3249de170\n";
    assert_eq!(decode_raw_event(misplaced), Err(ParseError::BadId));
}

#[test]
fn bad_recipe_id_is_an_error() {
    let raw = b"name: X\ntime: 2024-01-01\nrecipe_id: not-a-uuid\n";
    assert_eq!(decode_raw_event(raw), Err(ParseError::BadId));
}

#[test]
fn bad_date_is_an_error() {
    let raw = b"name: X\ntime: not-a-date\n";
    assert_eq!(decode_raw_event(raw), Err(ParseError::BadDate));
}

#[test]
fn missing_name_or_time_is_an_error() {
    assert_eq!(
        decode_raw_event(b"time: 2024-01-01\n"),
        Err(ParseError::MissingField)
    );
    assert_eq!(
        decode_raw_event(b"name: X\n"),
        Err(ParseError::MissingField)
    );
    assert_eq!(decode_raw_event(b""), Err(ParseError::MissingField));
}

#[test]
fn repeated_field_is_an_error() {
    let raw = b"name: A\nname: B\ntime: 2024-01-01\n";
    assert_eq!(decode_raw_event(raw), Err(ParseError::DuplicateKey));
}

#[test]
fn unknown_keys_are_skipped_with_their_values() {
    let raw = b"name: X\nfoo: bar\ntime: 2024-01-01\nextra:\n  nested: stuff\n  more: here\n";
    let raw_event = decode_raw_event(raw).unwrap();
    assert_eq!(raw_event.name, b"X".to_vec());
    assert_eq!(raw_event.time, Date { year: 2024, month: 1, day: 1 });
}

#[test]
fn metadata_in_block_and_flow_form() {
    let block = decode_raw_event(b"name: X\ntime: 2024-01-01\nmetadata:\n  a: 1\n  b: two\n")
        .unwrap();
    let flow = decode_raw_event(b"name: X\ntime: 2024-01-01\nmetadata: {a: 1, b: two}\n").unwrap();
    let expected = vec![(b"a".to_vec(), b"1".to_vec()), (b"b".to_vec(), b"two".to_vec())];
    assert_eq!(block.metadata.unwrap().0, expected);
    assert_eq!(flow.metadata.unwrap().0, expected);
}

#[test]
fn repeated_metadata_key_is_an_error() {
    let raw = b"name: X\ntime: 2024-01-01\nmetadata:\n  a: 1\n  a: 2\n";
    assert_eq!(decode_raw_event(raw), Err(ParseError::DuplicateKey));
    let flow = b"name: X\ntime: 2024-01-01\nmetadata: {a: 1, a: 2}\n";
    assert_eq!(decode_raw_event(flow), Err(ParseError::DuplicateKey));
}

#[test]
fn quoted_scalars_keep_their_bytes() {
    let raw = b"name: \"  spaced name  \"\ntime: 2024-01-01\ndescription: \"a: b, {c}\"  \n";
    let raw_event = decode_raw_event(raw).unwrap();
    assert_eq!(raw_event.name, b"  spaced name  ".to_vec());
    assert_eq!(raw_event.description, Some(b"a: b, {c}".to_vec()));
}

#[test]
fn quoted_scalars_decode_escapes() {
    let raw = b"name: \"he said \\\"hi\\\"\"\ntime: 2024-01-01\n";
    let raw_event = decode_raw_event(raw).unwrap();
    assert_eq!(raw_event.name, b"he said \"hi\"".to_vec());

    let raw = b"name: X\ntime: 2024-01-01\ndescription: \"a\\\\b\\nc\\td\"\n";
    let raw_event = decode_raw_event(raw).unwrap();
    assert_eq!(raw_event.description, Some(b"a\\b\nc\td".to_vec()));
}

#[test]
fn quoted_escapes_in_flow_mappings() {
    let raw = b"name: X\ntime: 2024-01-01\ncoverImage: {url: \"a\\\"b\", alt: \"c\\\\d\"}\n";
    let raw_event = decode_raw_event(raw).unwrap();
    let cover = raw_event.cover_image.unwrap();
    assert_eq!(cover.url, b"a\"b".to_vec());
    assert_eq!(cover.alt, b"c\\d".to_vec());
}

#[test]
fn unknown_escape_is_an_error() {
    let raw = b"name: \"a\\qb\"\ntime: 2024-01-01\n";
    assert_eq!(decode_raw_event(raw), Err(ParseError::Structure));
    let unclosed = b"name: \"never closes\ntime: 2024-01-01\n";
    assert_eq!(decode_raw_event(unclosed), Err(ParseError::Structure));
}

#[test]
fn plain_scalars_are_trimmed_only_at_the_ends() {
    let raw = b"name:   Gammeldags oksesteg   \ntime: 2024-01-01\n";
    let raw_event = decode_raw_event(raw).unwrap();
    assert_eq!(raw_event.name, b"Gammeldags oksesteg".to_vec());
}

#[test]
fn empty_name_is_accepted_unvalidated() {
    let raw = b"name: \"\"\ntime: 2024-01-01\n";
    let raw_event = decode_raw_event(raw).unwrap();
    assert_eq!(raw_event.name, Vec::<u8>::new());
}

#[test]
fn line_without_a_key_colon_is_an_error() {
    assert_eq!(
        decode_raw_event(b"name X\ntime: 2024-01-01\n"),
        Err(ParseError::Structure)
    );
    assert_eq!(
        decode_raw_event(b": x\ntime: 2024-01-01\n"),
        Err(ParseError::Structure)
    );
}

#[test]
fn stray_indentation_is_an_error() {
    assert_eq!(
        decode_raw_event(b"name: X\n  stray: deep\ntime: 2024-01-01\n"),
        Err(ParseError::Structure)
    );
}

#[test]
fn unclosed_flow_mapping_is_an_error() {
    assert_eq!(
        decode_raw_event(b"name: X\ntime: 2024-01-01\nmetadata: {a: 1\n"),
        Err(ParseError::Structure)
    );
}

#[test]
fn mapping_under_a_text_field_is_an_error() {
    assert_eq!(
        decode_raw_event(b"name:\n  sub: x\ntime: 2024-01-01\n"),
        Err(ParseError::WrongType)
    );
    assert_eq!(
        decode_raw_event(b"name: X\ndescription: {a: b}\ntime: 2024-01-01\n"),
        Err(ParseError::WrongType)
    );
    assert_eq!(
        decode_raw_event(b"name: X\ntime:\n"),
        Err(ParseError::WrongType)
    );
}

#[test]
fn text_under_a_mapping_field_is_an_error() {
    assert_eq!(
        decode_raw_event(b"name: X\ntime: 2024-01-01\nmetadata: plain\n"),
        Err(ParseError::WrongType)
    );
    assert_eq!(
        decode_raw_event(b"name: X\ntime: 2024-01-01\ncoverImage: plain\n"),
        Err(ParseError::WrongType)
    );
}

#[test]
fn invalid_calendar_date_is_an_error() {
    assert_eq!(
        decode_raw_event(b"name: X\ntime: 2023-02-29\n"),
        Err(ParseError::BadDate)
    );
    assert_eq!(
        decode_raw_event(b"name: X\ntime: 2024-04-31\n"),
        Err(ParseError::BadDate)
    );
}

#[test]
fn blank_lines_between_entries_are_allowed() {
    let raw = b"name: X\n\n   \ntime: 2024-01-01\n";
    let raw_event = decode_raw_event(raw).unwrap();
    assert_eq!(raw_event.name, b"X".to_vec());
}

#[test]
fn literal_block_keeps_lines_and_one_trailing_newline() {
    let raw = b"name: |\n  Two\n  Lines\n\n\ntime: 2024-01-01\n";
    let raw_event = decode_raw_event(raw).unwrap();
    assert_eq!(raw_event.name, b"Two\nLines\n".to_vec());
}

#[test]
fn literal_block_keeps_interior_blank_lines() {
    let raw = b"description: |\n  first\n\n  second\nname: X\ntime: 2024-01-01\n";
    let raw_event = decode_raw_event(raw).unwrap();
    assert_eq!(raw_event.description, Some(b"first\n\nsecond\n".to_vec()));
}

#[test]
fn null_optional_fields_stay_absent() {
    let raw = b"description:\nrecipe_id:\ncoverImage:\nmetadata:\nname: X\ntime: 2024-01-01\n";
    let raw_event = decode_raw_event(raw).unwrap();
    assert_eq!(raw_event.description, None);
    assert_eq!(raw_event.recipe_id, None);
    assert_eq!(raw_event.cover_image, None);
    assert_eq!(raw_event.metadata, None);
}

#[test]
fn cover_image_requires_url_and_alt() {
    assert_eq!(
        decode_raw_event(b"coverImage:\n  url: u\nname: X\ntime: 2024-01-01\n"),
        Err(ParseError::MissingField)
    );
    assert_eq!(
        decode_raw_event(b"coverImage: {alt: a}\nname: X\ntime: 2024-01-01\n"),
        Err(ParseError::MissingField)
    );
}

#[test]
fn normalization_copies_fields_and_draws_fresh_ids() {
    let raw = b"name: Pizza\ntime: 2024-01-10\ncoverImage: {url: \"u\", alt: \"a\"}\n";
    let raw_event = decode_raw_event(raw).unwrap();
    let again = decode_raw_event(raw).unwrap();
    let e1 = Event::from(raw_event);
    let e2 = Event::from(again);
    assert_eq!(e1.name, e2.name);
    assert_eq!(e1.time, e2.time);
    assert!(e1.images.is_empty());
    assert!(e2.images.is_empty());
    let c1 = e1.cover_image.unwrap();
    let c2 = e2.cover_image.unwrap();
    assert_eq!(c1.url, c2.url);
    assert_eq!(c1.alt, c2.alt);
    assert_ne!(e1.id, e2.id, "ids are drawn fresh on every normalization");
    assert_ne!(c1.id, c2.id, "image ids are drawn fresh too");
}
