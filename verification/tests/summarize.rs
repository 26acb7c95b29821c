use keyed_stats::pipeline::{summarize, Aggregator};

fn lines_sorted(out: &[u8]) -> Vec<Vec<u8>> {
    let mut v: Vec<Vec<u8>> = out
        .split(|b| *b == b'\n')
        .filter(|s| !s.is_empty())
        .map(|s| s.to_vec())
        .collect();
    v.sort();
    v
}

#[test]
fn two_cities_three_records() {
    let out = summarize(b"Paris;10.0\nParis;20.0\nLondon;5.5\n");
    assert_eq!(
        out,
        b"Paris;15.000000;10.000000;20.000000\nLondon;5.500000;5.500000;5.500000\n".to_vec()
    );
}

#[test]
fn single_record_exact() {
    let out = summarize(b"Hamburg;12.0\n");
    assert_eq!(out, b"Hamburg;12.000000;12.000000;12.000000\n".to_vec());
}

#[test]
fn only_malformed_lines_give_empty_output() {
    let out = summarize(b"NoDelimiterHere\nCity;notanumber\n\n");
    assert_eq!(out, b"".to_vec());
}

#[test]
fn malformed_lines_do_not_perturb_others() {
    let with_noise = summarize(b"NoDelimiterHere\na;1.0\nCity;notanumber\na;3.0\n\nb;;\nb;2.0\n");
    let clean = summarize(b"a;1.0\na;3.0\nb;2.0\n");
    assert_eq!(with_noise, clean);
    assert_eq!(
        clean,
        b"a;2.000000;1.000000;3.000000\nb;2.000000;2.000000;2.000000\n".to_vec()
    );
}

#[test]
fn order_independence_same_line_set() {
    let a = summarize(b"x;1.0\ny;2.0\nx;3.0\ny;4.0\n");
    let b = summarize(b"y;4.0\nx;3.0\ny;2.0\nx;1.0\n");
    assert_eq!(lines_sorted(&a), lines_sorted(&b));
}

#[test]
fn single_value_mean_min_max_coincide() {
    let out = summarize(b"k;-7.25\n");
    assert_eq!(out, b"k;-7.250000;-7.250000;-7.250000\n".to_vec());
}

#[test]
fn mean_rounds_ties_away_from_zero() {
    // sum 0.000003 over two records: 1.5 micro units rounds to 2.
    let out = summarize(b"k;0.000001\nk;0.000002\n");
    assert_eq!(out, b"k;0.000002;0.000001;0.000002\n".to_vec());
    let neg = summarize(b"k;-0.000001\nk;-0.000002\n");
    assert_eq!(neg, b"k;-0.000002;-0.000002;-0.000001\n".to_vec());
}

#[test]
fn negative_values() {
    let out = summarize(b"k;-1.5\nk;-2.5\n");
    assert_eq!(out, b"k;-2.000000;-2.500000;-1.500000\n".to_vec());
}

#[test]
fn scientific_notation() {
    assert_eq!(summarize(b"k;1e3\n"), b"k;1000.000000;1000.000000;1000.000000\n".to_vec());
    assert_eq!(summarize(b"k;1.5e-3\n"), b"k;0.001500;0.001500;0.001500\n".to_vec());
    assert_eq!(summarize(b"k;-2.5E2\n"), b"k;-250.000000;-250.000000;-250.000000\n".to_vec());
    assert_eq!(summarize(b"k;+3.25\n"), b"k;3.250000;3.250000;3.250000\n".to_vec());
}

#[test]
fn bare_point_forms() {
    assert_eq!(summarize(b"k;.5\n"), b"k;0.500000;0.500000;0.500000\n".to_vec());
    assert_eq!(summarize(b"k;5.\n"), b"k;5.000000;5.000000;5.000000\n".to_vec());
    assert_eq!(summarize(b"k;.\n"), b"".to_vec());
}

#[test]
fn empty_key_is_a_legitimate_key() {
    let out = summarize(b";5\n");
    assert_eq!(out, b";5.000000;5.000000;5.000000\n".to_vec());
}

#[test]
fn empty_value_is_skipped() {
    assert_eq!(summarize(b"City;\n"), b"".to_vec());
}

#[test]
fn key_takes_first_delimiter() {
    // The value holds a second delimiter, so it is unparsable and skipped.
    assert_eq!(summarize(b"a;1;2\n"), b"".to_vec());
}

#[test]
fn carriage_returns_are_stripped() {
    assert_eq!(
        summarize(b"Paris;1.0\r\nParis;3.0\r"),
        b"Paris;2.000000;1.000000;3.000000\n".to_vec()
    );
}

#[test]
fn value_rounds_to_six_digits() {
    assert_eq!(summarize(b"k;0.1234567\n"), b"k;0.123457;0.123457;0.123457\n".to_vec());
    assert_eq!(summarize(b"k;-0.1234561\n"), b"k;-0.123456;-0.123456;-0.123456\n".to_vec());
}

#[test]
fn out_of_range_and_overlong_values_are_skipped() {
    // More than i64::MAX micro units.
    assert_eq!(summarize(b"k;9300000000000\n"), b"".to_vec());
    // More than 25 significant digits.
    assert_eq!(summarize(b"k;1.2345678901234567890123456\n"), b"".to_vec());
    // Huge positive exponent.
    assert_eq!(summarize(b"k;1e9999\n"), b"".to_vec());
}

#[test]
fn extreme_exponents_that_underflow_give_zero() {
    assert_eq!(summarize(b"k;1e-9999\n"), b"k;0.000000;0.000000;0.000000\n".to_vec());
    assert_eq!(
        summarize(b"k;0e99999999999999999999999999999999999\n"),
        b"k;0.000000;0.000000;0.000000\n".to_vec()
    );
}

#[test]
fn range_boundary_is_representable() {
    let out = summarize(b"k;9223372036854.775807\n");
    assert_eq!(
        out,
        b"k;9223372036854.775807;9223372036854.775807;9223372036854.775807\n".to_vec()
    );
}

#[test]
fn non_numeric_words_are_skipped() {
    assert_eq!(summarize(b"k;inf\nk;nan\nk;infinity\nk;0x1A\nk;1e\nk;+-1\nk;1.2.3\n"), b"".to_vec());
}

#[test]
fn invalid_utf8_key_is_skipped() {
    let out = summarize(&[0xff, b';', b'1', b'\n']);
    assert_eq!(out, b"".to_vec());
}

#[test]
fn multibyte_utf8_key_is_kept() {
    let input = "Z\u{00fc}rich;1.0\n".as_bytes();
    let expected = "Z\u{00fc}rich;1.000000;1.000000;1.000000\n".as_bytes().to_vec();
    assert_eq!(summarize(input), expected);
}

#[test]
fn many_lines_few_keys() {
    let mut input: Vec<u8> = Vec::new();
    for i in 0..10_000u32 {
        match i % 3 {
            0 => input.extend_from_slice(b"a;1.0\n"),
            1 => input.extend_from_slice(b"b;2.0\n"),
            _ => input.extend_from_slice(b"c;-3.5\n"),
        }
    }
    let out = summarize(&input);
    let mut lines = lines_sorted(&out);
    lines.sort();
    assert_eq!(lines.len(), 3);
    assert_eq!(lines[0], b"a;1.000000;1.000000;1.000000".to_vec());
    assert_eq!(lines[1], b"b;2.000000;2.000000;2.000000".to_vec());
    assert_eq!(lines[2], b"c;-3.500000;-3.500000;-3.500000".to_vec());
}

#[test]
fn streaming_aggregator_matches_whole_buffer() {
    let mut agg = Aggregator::new();
    agg.push_line(b"Paris;10.0\n");
    agg.push_line(b"Paris;20.0\n");
    agg.push_line(b"London;5.5\n");
    agg.push_line(b"");
    let streamed = agg.finish();
    let whole = summarize(b"Paris;10.0\nParis;20.0\nLondon;5.5\n");
    assert_eq!(streamed, whole);
    assert_eq!(agg.record_count(), 3);
}
