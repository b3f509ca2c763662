use nuke::document::Open;
use nuke::position::{offset, point, position, Encoding, Lines, Position};
use nuke::span::{Location, Span};

const TEXT: &str = "a\u{1F600}b\nc";

fn at(line: u32, character: u32) -> Position {
    Position { line, character }
}

#[test]
fn a_column_counts_bytes_or_utf16_units() {
    let lines = Lines::new(TEXT);
    assert_eq!(position(&lines, Encoding::Utf8, 5), at(0, 5));
    assert_eq!(position(&lines, Encoding::Utf16, 5), at(0, 3));
    assert_eq!(position(&lines, Encoding::Utf8, 7), at(1, 0));
    assert_eq!(position(&lines, Encoding::Utf16, 8), at(1, 1));
}

#[test]
fn an_offset_past_the_end_stands_at_the_end() {
    let lines = Lines::new(TEXT);
    assert_eq!(position(&lines, Encoding::Utf8, 100), at(1, 1));
}

#[test]
fn a_position_names_the_offset_it_was_made_from() {
    let lines = Lines::new(TEXT);
    for encoding in [Encoding::Utf8, Encoding::Utf16] {
        for start in [0usize, 1, 5, 6, 7, 8] {
            let place = position(&lines, encoding, start);
            assert_eq!(offset(&lines, encoding, place), Some(start));
        }
    }
}

#[test]
fn a_line_the_text_lacks_names_no_offset() {
    let lines = Lines::new(TEXT);
    assert_eq!(offset(&lines, Encoding::Utf8, at(5, 0)), None);
    assert_eq!(offset(&lines, Encoding::Utf8, at(1, u32::MAX)), None);
    assert_eq!(offset(&lines, Encoding::Utf8, at(0, u32::MAX)), Some(u32::MAX as usize));
}

#[test]
fn a_location_counts_characters_from_one() {
    assert_eq!(point(TEXT, Location { line: 1, column: 3 }), 5);
    assert_eq!(point(TEXT, Location { line: 2, column: 1 }), 7);
    assert_eq!(point(TEXT, Location { line: 1, column: 40 }), 7);
    assert_eq!(point(TEXT, Location { line: 0, column: 1 }), TEXT.len());
    assert_eq!(point(TEXT, Location { line: 9, column: 1 }), TEXT.len());
    assert_eq!(point("", Location { line: 1, column: 1 }), 0);
}

#[test]
fn utf8_is_taken_only_where_it_is_offered() {
    let offered = vec!["utf-16".to_owned(), "utf-8".to_owned()];
    assert_eq!(Encoding::offered(Some(&offered)), Encoding::Utf8);
    assert_eq!(Encoding::offered(Some(&offered[..1])), Encoding::Utf16);
    assert_eq!(Encoding::offered(None), Encoding::Utf16);
    assert_eq!(Encoding::Utf8.kind(), "utf-8");
    assert_eq!(Encoding::default().kind(), "utf-16");
}

#[test]
fn an_open_text_parses_and_ranges_its_spans() {
    let open = Open::new("{a := 1 b = a}".to_owned());
    assert!(open.parsed().is_some());
    assert!(open.fault().is_none());
    assert!(!open.reduced());
    let range = open.range(Encoding::Utf16, Span::new(1, 2)).expect("a range");
    assert_eq!((range.start, range.end), (at(0, 1), at(0, 2)));
    assert_eq!(open.whole(Encoding::Utf8).end, at(0, 14));
    assert_eq!(open.locate(Encoding::Utf8, at(0, 12)), Some(12));
}

#[test]
fn a_span_inside_a_character_has_no_range() {
    let open = Open::new(TEXT.to_owned());
    assert!(open.fault().is_some() || open.parsed().is_some());
    assert!(open.range(Encoding::Utf8, Span::new(2, 5)).is_none());
    assert!(open.range(Encoding::Utf8, Span::new(1, 5)).is_some());
}

#[test]
fn a_text_that_does_not_parse_keeps_its_fault() {
    let mut open = Open::new("{a =".to_owned());
    assert!(open.parsed().is_none());
    assert!(open.fault().is_some());
    open.record(vec!["x.nuke".to_owned()], true);
    assert_eq!(open.read(), ["x.nuke".to_owned()]);
    assert!(open.reduced());
}

#[test]
fn the_point_of_a_location_is_the_offset_it_was_taken_at() {
    let text = "ab\nc\u{e9}\nd";
    for offset in [0usize, 1, 2, 3, 4, 6, 7, 8] {
        let at = nuke::span::Span::new(offset, offset).location(text);
        assert_eq!(nuke::position::point(text, at), offset, "at {offset}");
    }
}
