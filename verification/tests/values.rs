//! Unit tests for the decimal parser, the formatter round trip, the
//! aggregate merge, and the segment splitter's range properties.

use station_stats::{find_segments, parse_value, push_tenths, render, segment_measurements,
    AggMap, Measurement, ParseError};

#[test]
fn parses_plain_decimals() {
    assert_eq!(parse_value(b"0.0"), Ok(0));
    assert_eq!(parse_value(b"1.0"), Ok(10));
    assert_eq!(parse_value(b"-1.0"), Ok(-10));
    assert_eq!(parse_value(b"12.5"), Ok(125));
    assert_eq!(parse_value(b"-3.5"), Ok(-35));
    assert_eq!(parse_value(b"999.9"), Ok(9999));
    assert_eq!(parse_value(b"-999.9"), Ok(-9999));
    assert_eq!(parse_value(b"007.5"), Ok(75));
}

#[test]
fn rejects_malformed_decimals() {
    assert_eq!(parse_value(b""), Err(ParseError::TruncatedValue { offset: 0 }));
    assert_eq!(parse_value(b"-"), Err(ParseError::TruncatedValue { offset: 1 }));
    assert_eq!(parse_value(b"12"), Err(ParseError::TruncatedValue { offset: 2 }));
    assert_eq!(parse_value(b"12."), Err(ParseError::TruncatedValue { offset: 3 }));
    assert_eq!(parse_value(b".5"), Err(ParseError::BadByte { offset: 0, byte: b'.' }));
    assert_eq!(parse_value(b"1.23"), Err(ParseError::BadByte { offset: 3, byte: b'3' }));
    assert_eq!(parse_value(b"--1.0"), Err(ParseError::BadByte { offset: 1, byte: b'-' }));
    assert_eq!(parse_value(b"1x.0"), Err(ParseError::BadByte { offset: 1, byte: b'x' }));
    assert_eq!(parse_value(b"1.0 "), Err(ParseError::BadByte { offset: 3, byte: b' ' }));
}

#[test]
fn rejects_oversized_decimals() {
    assert_eq!(
        parse_value(b"99999999999999999999.0"),
        Err(ParseError::ValueTooLarge { offset: 0 })
    );
    // The largest magnitude that fits: i64::MAX tenths.
    assert_eq!(parse_value(b"922337203685477580.7"), Ok(i64::MAX));
    assert_eq!(parse_value(b"-922337203685477580.7"), Ok(-i64::MAX));
    assert_eq!(
        parse_value(b"922337203685477580.8"),
        Err(ParseError::ValueTooLarge { offset: 0 })
    );
}

#[test]
fn format_then_parse_round_trips() {
    for t in -9999i64..=9999 {
        let mut buf: Vec<u8> = Vec::new();
        push_tenths(t, &mut buf);
        assert_eq!(parse_value(&buf), Ok(t));
    }
}

#[test]
fn merge_is_commutative_on_concrete_aggregates() {
    let mut left = Measurement::new(15);
    left.update(-35);
    let right = Measurement::new(120);

    let mut a = left;
    a.merge(&right);
    let mut b = right;
    b.merge(&left);

    assert_eq!(a.min, b.min);
    assert_eq!(a.max, b.max);
    assert_eq!(a.sum, b.sum);
    assert_eq!(a.count, b.count);
    assert_eq!(a.min, -35);
    assert_eq!(a.max, 120);
    assert_eq!(a.sum, 100);
    assert_eq!(a.count, 3);
}

#[test]
fn partitioned_scan_and_merge_equals_single_scan() {
    let whole = b"a;1.0\nb;2.0\na;3.0\nc;-4.0\n";
    let single = segment_measurements(whole).unwrap();

    let mut merged = AggMap::new();
    let first = segment_measurements(b"a;1.0\nb;2.0\n").unwrap();
    let second = segment_measurements(b"a;3.0\nc;-4.0\n").unwrap();
    // Merge in either order: the rendered mapping is the same.
    let mut other_way = AggMap::new();
    merged.merge_from(&first);
    merged.merge_from(&second);
    other_way.merge_from(&second);
    other_way.merge_from(&first);

    assert_eq!(render(&merged), render(&single));
    assert_eq!(render(&other_way), render(&single));
}

#[test]
fn splitter_ranges_cover_the_buffer_on_line_breaks() {
    let buf = b"aa;1.0\nbb;2.0\ncc;3.0\ndd;4.0\nee;5.0\n";
    for p in 1..10usize {
        let ranges = find_segments(buf, p);
        assert_eq!(ranges.len(), p);
        assert_eq!(ranges[0].0, 0);
        assert_eq!(ranges[p - 1].1, buf.len());
        for i in 0..p {
            let (s, e) = ranges[i];
            assert!(s <= e && e <= buf.len());
            if i + 1 < p {
                assert_eq!(e, ranges[i + 1].0);
                assert!(e == buf.len() || buf[e - 1] == b'\n');
            }
        }
    }
}

#[test]
fn splitter_handles_missing_final_terminator() {
    let buf = b"aa;1.0\nbb;2.0";
    let ranges = find_segments(buf, 4);
    assert_eq!(ranges.len(), 4);
    assert_eq!(ranges[3].1, buf.len());
    for i in 0..3 {
        assert!(ranges[i].1 == buf.len() || buf[ranges[i].1 - 1] == b'\n');
    }
}

#[test]
fn scanner_reports_first_malformed_line() {
    assert_eq!(
        segment_measurements(b"a;1.0\nbroken\n").unwrap_err(),
        ParseError::MissingSeparator { offset: 6 }
    );
}
