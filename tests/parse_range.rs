use range_header::{parse_range, ParseErrorKind, Range, RangeSpec};

fn assert_no_parse(s: &str) {
    if parse_range(s).is_ok() {
        panic!("{:?} parsed unexpectedly.", s)
    }
}

fn assert_parse(s: &str) -> Range {
    match parse_range(s) {
        Ok(range) => range,
        Err(e) => panic!("{:?} failed to parse: {:?}", s, e),
    }
}

fn assert_parse_eq(s: &str, expected: Range) {
    assert_eq!(expected, assert_parse(s));
}

fn error_of(s: &str) -> (ParseErrorKind, usize) {
    match parse_range(s) {
        Ok(range) => panic!("{:?} parsed unexpectedly: {:?}", s, range),
        Err(e) => (e.kind, e.position),
    }
}

#[test]
fn check_parse_eq() {
    assert_parse_eq("bytes=100-200", Range::new(RangeSpec::Full(100, 200)));
    assert_parse_eq("bytes=100-", Range::new(RangeSpec::From(100)));
    assert_parse_eq("bytes=-239", Range::new(RangeSpec::Last(239)));
    assert_parse_eq("bytes=1-3", Range::new(RangeSpec::Full(1, 3)));
    assert_parse_eq("bytes=1-1", Range::new(RangeSpec::Full(1, 1)));
    assert_parse_eq("bytes=0-13", Range::new(RangeSpec::Full(0, 13)));

    assert_parse_eq("bytes=1-3 ", Range::new(RangeSpec::Full(1, 3)));
    assert_parse_eq("bytes=1-3   ", Range::new(RangeSpec::Full(1, 3)));

    assert_parse_eq("bytes=1-2,3-3", Range::new(&[RangeSpec::Full(1, 2), RangeSpec::Full(3, 3)]));
    assert_parse_eq("bytes=1-2,3-", Range::new(&[RangeSpec::Full(1, 2), RangeSpec::From(3)]));
    assert_parse_eq("bytes=-2,3-5", Range::new(&[RangeSpec::Last(2), RangeSpec::Full(3, 5)]));
    assert_parse_eq("bytes=-2, 3-5", Range::new(&[RangeSpec::Last(2), RangeSpec::Full(3, 5)]));
    assert_parse_eq("bytes=-2 , 3-5", Range::new(&[RangeSpec::Last(2), RangeSpec::Full(3, 5)]));
    assert_parse_eq("bytes=3-,1-2", Range::new(&[RangeSpec::From(3), RangeSpec::Full(1, 2)]));
    assert_parse_eq(
        "bytes=1-2,2-3,3-4,6-,-10",
        Range::new(&[
            RangeSpec::Full(1, 2),
            RangeSpec::Full(2, 3),
            RangeSpec::Full(3, 4),
            RangeSpec::From(6),
            RangeSpec::Last(10),
        ]),
    );
    assert_parse_eq(
        "bytes=1-2  ,2-3 , 3-4,  6-  ,-10",
        Range::new(&[
            RangeSpec::Full(1, 2),
            RangeSpec::Full(2, 3),
            RangeSpec::Full(3, 4),
            RangeSpec::From(6),
            RangeSpec::Last(10),
        ]),
    );
}

#[test]
fn test_bad_parses() {
    assert_no_parse("bytes=");
    assert_no_parse("range=100-200");
    assert_no_parse("bytes 100-200");
    assert_no_parse("bytes-100-200");
    assert_no_parse("100-200");
    assert_no_parse("bytes=100");
    assert_no_parse("bytes=-");
    assert_no_parse("byte=100-200");
    assert_no_parse("bytes=100-200-");
    assert_no_parse("bytes=100-200-300");
    assert_no_parse("bytes=a-b");
    assert_no_parse("bytes=100a-b");
    assert_no_parse("bytes=a100-b");
    assert_no_parse("bytes=a-100");
    assert_no_parse("bytes=100-a");
    assert_no_parse("bytes=a-");
    assert_no_parse("bytes=-a");
    assert_no_parse("bytes= 100-200");

    assert_no_parse("bytes=3-1");
    assert_no_parse("");
}

#[test]
fn error_kinds_and_positions() {
    assert_eq!(error_of(""), (ParseErrorKind::MalformedUnitPrefix, 0));
    assert_eq!(error_of("range=100-200"), (ParseErrorKind::MalformedUnitPrefix, 0));
    assert_eq!(error_of("bytes 100-200"), (ParseErrorKind::MalformedUnitPrefix, 0));
    assert_eq!(error_of("bytes="), (ParseErrorKind::EmptySpecList, 6));
    assert_eq!(error_of("bytes=1-2,"), (ParseErrorKind::EmptySpecList, 10));
    assert_eq!(error_of("bytes=a-b"), (ParseErrorKind::InvalidIndex, 6));
    assert_eq!(error_of("bytes=100a-b"), (ParseErrorKind::InvalidIndex, 9));
    assert_eq!(error_of("bytes=100"), (ParseErrorKind::InvalidIndex, 9));
    assert_eq!(error_of("bytes= 100-200"), (ParseErrorKind::InvalidIndex, 6));
    assert_eq!(error_of("bytes=-"), (ParseErrorKind::MissingBounds, 6));
    assert_eq!(error_of("bytes=1-2, -"), (ParseErrorKind::MissingBounds, 11));
    assert_eq!(error_of("bytes=3-1"), (ParseErrorKind::InvertedBounds, 6));
    assert_eq!(error_of("bytes=0-1,9-5"), (ParseErrorKind::InvertedBounds, 10));
    assert_eq!(error_of("bytes=100-200-300"), (ParseErrorKind::TrailingInput, 13));
    assert_eq!(error_of("bytes=100-a"), (ParseErrorKind::TrailingInput, 10));
    assert_eq!(error_of("bytes=1-2 x"), (ParseErrorKind::TrailingInput, 10));
}

#[test]
fn index_overflow_is_rejected() {
    assert_parse_eq("bytes=18446744073709551615-", Range::new(RangeSpec::From(u64::MAX)));
    assert_parse_eq(
        "bytes=0-18446744073709551615",
        Range::new(RangeSpec::Full(0, u64::MAX)),
    );
    assert_eq!(error_of("bytes=18446744073709551616-"), (ParseErrorKind::InvalidIndex, 6));
    assert_eq!(error_of("bytes=5-18446744073709551616"), (ParseErrorKind::InvalidIndex, 8));
    assert_eq!(error_of("bytes=-99999999999999999999999"), (ParseErrorKind::InvalidIndex, 7));
}

#[test]
fn leading_zeros_and_tabs() {
    assert_parse_eq("bytes=007-010", Range::new(RangeSpec::Full(7, 10)));
    assert_parse_eq(
        "bytes=1-2\t,\t3-4\t",
        Range::new(&[RangeSpec::Full(1, 2), RangeSpec::Full(3, 4)]),
    );
}

#[test]
fn joined_lists_keep_order() {
    let a = assert_parse("bytes=5-9,-3");
    let b = assert_parse("bytes=0-,2-2");
    let joined = assert_parse("bytes=5-9,-3 \t, 0-,2-2");
    let mut expected: Vec<RangeSpec> = a.to_vec();
    expected.extend_from_slice(&b);
    assert_eq!(joined.to_vec(), expected);
    assert_eq!(joined, assert_parse("bytes=5-9,-3,0-,2-2"));
}

#[test]
fn trailing_whitespace_changes_nothing() {
    assert_eq!(assert_parse("bytes=4-8, -2 \t "), assert_parse("bytes=4-8, -2"));
}

#[test]
fn parsed_full_ranges_are_ordered() {
    let r = assert_parse("bytes=1-1,0-9,-4,8-");
    assert!(!r.is_empty());
    for spec in r.iter() {
        if let RangeSpec::Full(from, to) = *spec {
            assert!(from <= to);
        }
    }
}

#[test]
fn duplicates_and_overlaps_are_kept() {
    assert_parse_eq(
        "bytes=0-5,0-5,3-8",
        Range::new(&[RangeSpec::Full(0, 5), RangeSpec::Full(0, 5), RangeSpec::Full(3, 8)]),
    );
}

#[test]
fn range_new_from_slice_and_vec() {
    let specs = vec![RangeSpec::Last(1), RangeSpec::From(2), RangeSpec::Full(3, 4)];
    let from_vec = Range::new(specs.clone());
    let from_slice = Range::new(&specs[..]);
    assert_eq!(from_vec, from_slice);
    assert_eq!(from_vec.as_slice(), &specs[..]);
    assert_eq!(from_vec.len(), 3);
    assert_eq!(from_vec[2], RangeSpec::Full(3, 4));
}

#[test]
fn range_parse_matches_parse_range() {
    assert_eq!(Range::HEADER_NAME, "Range");
    assert_eq!(Range::parse("bytes=0-0,-1"), parse_range("bytes=0-0,-1"));
    assert_eq!(
        Range::parse("bytes=0-0,-1").unwrap(),
        Range::new(&[RangeSpec::Full(0, 0), RangeSpec::Last(1)])
    );
    assert_eq!(Range::parse("bytes=9-"), Ok(Range::new(RangeSpec::From(9))));
    assert!(Range::parse("bytes=2-1").is_err());
}

#[test]
fn non_ascii_input_is_rejected() {
    assert_eq!(error_of("bytes=1-2,é"), (ParseErrorKind::InvalidIndex, 10));
    assert_eq!(error_of("bytes=1-2é"), (ParseErrorKind::TrailingInput, 9));
}

#[test]
fn padding_keeps_failures_of_the_same_kind() {
    assert_eq!(error_of("bytes=1-2,5-3").0, error_of("bytes=1-2 \t,  5-3\t").0);
    assert_eq!(error_of("bytes=-,1-2").0, error_of("bytes=- , 1-2 ").0);
    assert_eq!(error_of("bytes=1-2,-").0, error_of("bytes=1-2\t,\t- ").0);
    assert_eq!(
        error_of("bytes=0-1,99999999999999999999-").0,
        error_of("bytes=0-1  ,  99999999999999999999-  ").0
    );
    assert_eq!(assert_parse("bytes=1-2,-5,7-"), assert_parse("bytes=1-2 , -5\t,\t7- "));
}

#[test]
fn an_inverted_spec_anywhere_fails() {
    assert_eq!(error_of("bytes=9-3,1-2").0, ParseErrorKind::InvertedBounds);
    assert_eq!(error_of("bytes=1-2, 9-3").0, ParseErrorKind::InvertedBounds);
    assert_eq!(error_of("bytes=1-2,3-,-4 ,10-5 ").0, ParseErrorKind::InvertedBounds);
    assert_eq!(error_of("bytes=1-2,99999999999999999999-5").0, ParseErrorKind::InvalidIndex);
}

#[test]
fn deref_shows_the_specs_in_order() {
    let r = Range::new(&[RangeSpec::Last(4), RangeSpec::Full(0, 1), RangeSpec::Last(4)]);
    let s: &[RangeSpec] = &r;
    assert_eq!(s, &[RangeSpec::Last(4), RangeSpec::Full(0, 1), RangeSpec::Last(4)][..]);
}
