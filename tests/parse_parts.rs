use range_header::parse::{index, range, range_spec};
use range_header::{ParseErrorKind, Range, RangeSpec};

fn chars(s: &str) -> Vec<char> {
    s.chars().collect()
}

#[test]
fn index_reads_digits() {
    let input = chars("x0042-");
    assert_eq!(index(&input, 1).unwrap(), (42, 5));
    let e = index(&input, 0).unwrap_err();
    assert_eq!((e.kind, e.position), (ParseErrorKind::InvalidIndex, 0));
    let e = index(&input, 6).unwrap_err();
    assert_eq!((e.kind, e.position), (ParseErrorKind::InvalidIndex, 6));
    let big = chars("18446744073709551616");
    let e = index(&big, 0).unwrap_err();
    assert_eq!((e.kind, e.position), (ParseErrorKind::InvalidIndex, 0));
}

#[test]
fn range_spec_reads_one_spec() {
    let input = chars("5-9,-3,7-,-");
    assert_eq!(range_spec(&input, 0).unwrap(), (RangeSpec::Full(5, 9), 3));
    assert_eq!(range_spec(&input, 4).unwrap(), (RangeSpec::Last(3), 6));
    assert_eq!(range_spec(&input, 7).unwrap(), (RangeSpec::From(7), 9));
    let e = range_spec(&input, 10).unwrap_err();
    assert_eq!((e.kind, e.position), (ParseErrorKind::MissingBounds, 10));
    let e = range_spec(&input, 3).unwrap_err();
    assert_eq!((e.kind, e.position), (ParseErrorKind::InvalidIndex, 3));
    let e = range_spec(&input, 11).unwrap_err();
    assert_eq!((e.kind, e.position), (ParseErrorKind::EmptySpecList, 11));
}

#[test]
fn range_reads_a_whole_value() {
    assert_eq!(
        range(&chars("bytes=1-2, 4-")).unwrap(),
        Range::new(&[RangeSpec::Full(1, 2), RangeSpec::From(4)])
    );
    let e = range(&chars("bytes=1-2;")).unwrap_err();
    assert_eq!((e.kind, e.position), (ParseErrorKind::TrailingInput, 9));
}
