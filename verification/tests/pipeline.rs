//! End-to-end scenarios for the full pipeline: split, scan, merge, render.

use station_stats::solve;
use station_stats::ParseError;

fn run(input: &[u8], p: usize) -> Vec<u8> {
    solve(input, p).expect("input should be well-formed")
}

#[test]
fn single_key() {
    assert_eq!(run(b"a;1.0\na;2.0\na;3.0\n", 1), b"{a=1.0/2.0/3.0}".to_vec());
}

#[test]
fn multiple_keys_sorted() {
    assert_eq!(run(b"b;5.0\na;1.0\n", 1), b"{a=1.0/1.0/1.0, b=5.0/5.0/5.0}".to_vec());
}

#[test]
fn negative_values() {
    assert_eq!(run(b"x;-3.5\nx;1.5\n", 1), b"{x=-3.5/-1.0/1.5}".to_vec());
}

#[test]
fn no_trailing_terminator() {
    let with_nl = run(b"a;1.0\nb;2.5\n", 3);
    let without_nl = run(b"a;1.0\nb;2.5", 3);
    assert_eq!(with_nl, without_nl);
    assert_eq!(with_nl, b"{a=1.0/1.0/1.0, b=2.5/2.5/2.5}".to_vec());
}

#[test]
fn worker_count_does_not_change_output() {
    let input = b"pori;21.8\nrovaniemi;-5.6\nhelsinki;12.4\npori;4.4\nhelsinki;14.0\n\
                  oulu;3.3\npori;-2.2\nrovaniemi;-11.8\nhelsinki;12.9\noulu;3.4\n";
    let reference = run(input, 1);
    for p in 2..12usize {
        assert_eq!(run(input, p), reference);
    }
}

#[test]
fn mean_is_rounded_to_nearest_tenth_half_away_from_zero() {
    assert_eq!(run(b"a;0.1\na;0.2\n", 1), b"{a=0.1/0.2/0.2}".to_vec());
    assert_eq!(run(b"a;-0.1\na;-0.2\n", 1), b"{a=-0.2/-0.2/-0.1}".to_vec());
    assert_eq!(run(b"a;1.0\na;2.0\n", 1), b"{a=1.0/1.5/2.0}".to_vec());
}

#[test]
fn empty_input_renders_empty_braces() {
    assert_eq!(run(b"", 4), b"{}".to_vec());
}

#[test]
fn single_unterminated_line() {
    assert_eq!(run(b"k;0.0", 8), b"{k=0.0/0.0/0.0}".to_vec());
}

#[test]
fn empty_key_is_a_key() {
    assert_eq!(run(b";1.0\n", 1), b"{=1.0/1.0/1.0}".to_vec());
}

#[test]
fn many_segments_few_lines() {
    assert_eq!(run(b"a;1.0\n", 64), b"{a=1.0/1.0/1.0}".to_vec());
}

#[test]
fn key_bytes_pass_through_verbatim() {
    // Keys are raw bytes; multi-byte text survives scanning and rendering.
    assert_eq!(run(b"\xc3\xa9;1.0\n", 2), b"{\xc3\xa9=1.0/1.0/1.0}".to_vec());
}

#[test]
fn unterminated_input_is_split_safely_at_any_width() {
    let input = b"aa;1.0\nbb;2.0\ncc;3.0";
    let reference = run(input, 1);
    for p in 2..8usize {
        assert_eq!(run(input, p), reference);
    }
}

#[test]
fn missing_separator_is_an_error() {
    assert_eq!(solve(b"a;1.0\nabc\n", 1), Err(ParseError::MissingSeparator { offset: 6 }));
}

#[test]
fn bad_value_byte_is_an_error() {
    assert_eq!(solve(b"a;x.0\n", 1), Err(ParseError::BadByte { offset: 2, byte: b'x' }));
}

#[test]
fn truncated_value_is_an_error() {
    assert_eq!(solve(b"a;12.\n", 1), Err(ParseError::TruncatedValue { offset: 5 }));
}

#[test]
fn oversized_value_is_an_error() {
    let line = b"a;99999999999999999999.0\n";
    assert_eq!(solve(line, 1), Err(ParseError::ValueTooLarge { offset: 2 }));
}
