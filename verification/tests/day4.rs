use advent::day4::Span;
use advent::day4::either_contains;
use advent::day4::is_contained;
use advent::day4::parse_range;
use advent::day4::parse_ranges;

#[test]
fn lib_test_parse_range() {
    let start = 2;
    let end = 6;
    let r = parse_range(&format!("{}-{}", start, end)).unwrap();

    assert_eq!(r.start, start);
    assert_eq!(r.end, end + 1);
}

#[test]
fn lib_test_parse_ranges() {
    let ranges = parse_ranges("2-6,3-4").unwrap();

    assert_eq!(ranges[0].start, 2);
    assert_eq!(ranges[0].end, 7);
    assert_eq!(ranges[1].start, 3);
    assert_eq!(ranges[1].end, 5);
}

#[test]
fn lib_test_is_contained() {
    let r1 = Span { start: 2, end: 7 };
    let r2 = Span { start: 6, end: 7 };
    assert!(is_contained(&r1, &r2));
}

#[test]
fn main_test_parse_range() {
    let start = 2;
    let end = 6;
    let r = parse_range(&format!("{}-{}", start, end)).unwrap();

    assert_eq!(r.start, start);
    assert_eq!(r.end, end + 1);
}

#[test]
fn main_test_parse_ranges() {
    let ranges = parse_ranges("2-6,3-4").unwrap();

    assert_eq!(ranges[0].start, 2);
    assert_eq!(ranges[0].end, 7);
    assert_eq!(ranges[1].start, 3);
    assert_eq!(ranges[1].end, 5);
}

#[test]
fn main_test_is_contained() {
    let r1 = Span { start: 2, end: 7 };
    let r2 = Span { start: 6, end: 7 };
    assert!(is_contained(&r1, &r2));
}

#[test]
fn either_contains_checks_both_ways() {
    let r1 = Span { start: 6, end: 7 };
    let r2 = Span { start: 2, end: 7 };
    assert!(either_contains(&r1, &r2));
    let r3 = Span { start: 8, end: 9 };
    assert!(!either_contains(&r1, &r3));
}

#[test]
fn parse_ranges_rejects_bad_pieces() {
    assert!(parse_ranges("2-6,x").is_none());
    assert!(parse_range("5").is_none());
}
