use range_header::{is_digit, is_valid_token, is_whitespace, AcceptRanges, ContentRange, RangeSpec};

#[test]
fn within_uses_the_defining_bound() {
    assert!(RangeSpec::From(9).within(10));
    assert!(!RangeSpec::From(10).within(10));
    assert!(RangeSpec::Last(9).within(10));
    assert!(!RangeSpec::Last(10).within(10));
    assert!(RangeSpec::Full(20, 9).within(10));
    assert!(!RangeSpec::Full(0, 10).within(10));
    assert!(!RangeSpec::From(0).within(0));
}

#[test]
fn bounds_give_offset_and_count() {
    assert_eq!(RangeSpec::From(3).bounds(10), (3, 7));
    assert_eq!(RangeSpec::Last(4).bounds(10), (6, 4));
    assert_eq!(RangeSpec::Full(2, 5).bounds(10), (2, 4));
    assert_eq!(RangeSpec::Full(7, 7).bounds(10), (7, 1));
    assert_eq!(RangeSpec::From(10).bounds(10), (10, 0));
    assert_eq!(RangeSpec::Last(10).bounds(10), (0, 10));
}

fn span_in_resource(spec: RangeSpec, length: u64) -> bool {
    let defined = match spec {
        RangeSpec::From(i) => i <= length,
        RangeSpec::Last(k) => k <= length,
        RangeSpec::Full(i, j) => i <= j && j - i < u64::MAX,
    };
    if !defined {
        return false;
    }
    let (offset, count) = spec.bounds(length);
    offset < length && (offset as u128) + (count as u128) <= length as u128
}

#[test]
fn within_agrees_with_bounds() {
    let lengths = [0u64, 1, 2, 7, 100, u64::MAX];
    for &length in lengths.iter() {
        for a in 0..9u64 {
            for b in a..9u64 {
                for spec in [RangeSpec::From(a), RangeSpec::Full(a, b)] {
                    assert_eq!(spec.within(length), span_in_resource(spec, length));
                }
            }
            if a != 0 && a != length {
                let spec = RangeSpec::Last(a);
                assert_eq!(spec.within(length), span_in_resource(spec, length));
            }
        }
    }
    // The suffix of zero bytes and the suffix of the whole resource disagree.
    assert!(RangeSpec::Last(0).within(5));
    assert!(!span_in_resource(RangeSpec::Last(0), 5));
    assert!(!RangeSpec::Last(5).within(5));
    assert!(span_in_resource(RangeSpec::Last(5), 5));
}

#[test]
fn character_classes() {
    assert!(is_whitespace(' '));
    assert!(is_whitespace('\t'));
    assert!(!is_whitespace('\n'));
    assert!(!is_whitespace('a'));
    for c in "0123456789".chars() {
        assert!(is_digit(c));
    }
    assert!(!is_digit('a'));
    assert!(!is_digit('/'));
    assert!(!is_digit(':'));
    for c in "!#$%&'*+-.^_`|~09AZaz".chars() {
        assert!(is_valid_token(c), "{:?}", c);
    }
    assert!(is_valid_token('{'));
    assert!(is_valid_token('}'));
    for c in " \t\"(),/:;<=>?@[\\]".chars() {
        assert!(!is_valid_token(c), "{:?}", c);
    }
}

#[test]
fn accept_ranges_header() {
    assert_eq!(AcceptRanges::Bytes.into_header(), ("Accept-Ranges", "bytes"));
    assert_eq!(AcceptRanges::NoRanges.into_header(), ("Accept-Ranges", "none"));
}

#[test]
fn content_range_header() {
    let (name, value) = ContentRange::Bytes(0, 499, Some(1234)).into_header();
    assert_eq!(name, "Content-Range");
    assert_eq!(value, "bytes 0-499/1234");
    assert_eq!(ContentRange::Bytes(10, 20, None).into_header().1, "bytes 10-20/*");
    assert_eq!(ContentRange::UnsatisfiableBytes(4096).into_header().1, "bytes */4096");
    assert_eq!(
        ContentRange::Bytes(u64::MAX - 1, u64::MAX, Some(u64::MAX)).into_header().1,
        "bytes 18446744073709551614-18446744073709551615/18446744073709551615"
    );
}
