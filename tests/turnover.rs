use turnover::decode::{parse, parse_u32, transform_u32_to_array_of_u8, InputLine, ParseError};
use turnover::reduce::{graph_points, halve, reduce};
use turnover::stream::{window_sizes, Stream};
use turnover::tracker::{Counter, Sample};

fn id_hex(first: &str) -> String {
    let mut s = String::from(first);
    while s.len() < 64 {
        s.push('0');
    }
    s
}

fn rev_hex(first: &str) -> String {
    let mut s = String::new();
    while s.len() + first.len() < 64 {
        s.push('0');
    }
    s.push_str(first);
    s
}

fn record(dir: &str, height: &str, id: &str, index: &str) -> InputLine {
    parse(vec![dir, height, id, index]).unwrap()
}

fn mean(a: f64, b: f64) -> f64 {
    (a + b) * 0.5
}

#[test]
fn big_endian_index_bytes() {
    assert_eq!(transform_u32_to_array_of_u8(0x01020304), [1, 2, 3, 4]);
    assert_eq!(transform_u32_to_array_of_u8(0), [0, 0, 0, 0]);
    assert_eq!(transform_u32_to_array_of_u8(u32::MAX), [255, 255, 255, 255]);
}

#[test]
fn decimal_fields() {
    assert_eq!(parse_u32(b"0"), Some(0));
    assert_eq!(parse_u32(b"+17"), Some(17));
    assert_eq!(parse_u32(b"4294967295"), Some(u32::MAX));
    assert_eq!(parse_u32(b"4294967296"), None);
    assert_eq!(parse_u32(b""), None);
    assert_eq!(parse_u32(b"+"), None);
    assert_eq!(parse_u32(b"-1"), None);
    assert_eq!(parse_u32(b"12a"), None);
}

#[test]
fn creation_key_keeps_identifier_order() {
    let l = record("o", "10", "0102", "1");
    assert!(!l.input);
    assert_eq!(l.height, 10);
    assert_eq!(l.key, vec![1, 2, 0, 0, 0, 1]);
}

#[test]
fn spend_key_reverses_identifier() {
    let l = record("i", "7", "0102", "258");
    assert!(l.input);
    assert_eq!(l.height, 7);
    assert_eq!(l.key, vec![2, 1, 0, 0, 1, 2]);
}

#[test]
fn reversed_identifiers_give_the_same_key() {
    let a = record("o", "10", &id_hex("aa"), "0");
    let b = record("i", "30", &rev_hex("aa"), "0");
    assert_eq!(a.key.len(), 36);
    assert_eq!(a.key, b.key);
    let mut c = Counter::new(7);
    c.count(&a);
    c.count(&b);
    assert_eq!(c.spent(), 1);
}

#[test]
fn parse_errors() {
    assert_eq!(parse(vec!["i", "1", "00"]).err(), Some(ParseError::MissingField));
    assert_eq!(parse(vec!["i", "x", "00", "1"]).err(), Some(ParseError::BadHeight));
    assert_eq!(parse(vec!["i", "4294967296", "00", "1"]).err(), Some(ParseError::BadHeight));
    assert_eq!(parse(vec!["i", "1", "0", "1"]).err(), Some(ParseError::BadHex));
    assert_eq!(parse(vec!["i", "1", "AB", "1"]).err(), Some(ParseError::BadHex));
    assert_eq!(parse(vec!["i", "1", "zz", "1"]).err(), Some(ParseError::BadHex));
    assert_eq!(parse(vec!["i", "1", "ab", "-1"]).err(), Some(ParseError::BadIndex));
}

#[test]
fn hex_digits_decode_to_bytes() {
    let l = record("o", "1", "deadbeef", "0");
    assert_eq!(l.key, vec![0xde, 0xad, 0xbe, 0xef, 0, 0, 0, 0]);
}

#[test]
fn tracker_samples_at_rotation() {
    let mut c = Counter::new(10);
    c.count(&record("o", "11", "01", "0"));
    c.count(&record("o", "12", "02", "0"));
    c.count(&record("i", "13", "01", "0"));
    c.count(&record("i", "14", "03", "0"));
    assert_eq!(c.spent(), 1);
    c.count(&record("o", "20", "04", "0"));
    assert_eq!(c.history(), &vec![Sample { spent: 1, live: 2 }]);
    // a second event at the same height sees the new live key
    c.count(&record("o", "20", "05", "0"));
    assert_eq!(c.history().len(), 2);
    assert_eq!(c.history()[1], Sample { spent: 0, live: 1 });
    assert_eq!(c.size(), 10);
}

#[test]
fn rotation_with_empty_live_set_takes_no_sample() {
    let mut c = Counter::new(5);
    c.count(&record("i", "5", "01", "0"));
    c.count(&record("i", "10", "01", "0"));
    assert!(c.history().is_empty());
    assert_eq!(c.spent(), 0);
}

#[test]
fn no_spends_no_turnover() {
    let mut c = Counter::new(2);
    for h in 1..20u32 {
        let hs = h.to_string();
        c.count(&record("o", &hs, "ab", &hs));
    }
    assert_eq!(c.spent(), 0);
    assert!(!c.history().is_empty());
    assert!(c.history().iter().all(|s| s.spent == 0));
}

#[test]
fn reinsertion_is_a_no_op() {
    let mut c = Counter::new(100);
    c.count(&record("o", "1", "01", "0"));
    c.count(&record("o", "2", "01", "0"));
    c.count(&record("o", "100", "02", "0"));
    assert_eq!(c.history(), &vec![Sample { spent: 0, live: 1 }]);
}

#[test]
fn rotation_count_matches_boundaries() {
    let mut c = Counter::new(4);
    let heights = [1u32, 4, 5, 8, 8, 9, 12, 13, 16];
    for h in heights.iter() {
        let hs = h.to_string();
        c.count(&record("o", &hs, "cd", &hs));
    }
    // boundaries at 4 (live {1}), 8 (live {5}), 8 (live {8}), 12, 16
    assert_eq!(c.history().len(), 5);
}

#[test]
fn end_to_end_three_records() {
    let mut s = Stream::new(&vec![10, 20]);
    let events = vec![
        record("o", "10", &id_hex("aa"), "0"),
        record("o", "20", &id_hex("bb"), "1"),
        record("i", "30", &rev_hex("aa"), "0"),
    ];
    for e in events.iter() {
        assert!(s.has_room());
        s.feed(e);
    }
    assert_eq!(s.total(), 2);
    // the window of the first creation has rotated away before height 30
    assert_eq!(s.counters()[0].spent(), 0);
    assert_eq!(s.counters()[1].spent(), 0);
    assert_eq!(s.counters()[0].history(), &vec![Sample { spent: 0, live: 1 }, Sample { spent: 0, live: 1 }]);
}

#[test]
fn spend_within_the_window_is_counted() {
    let mut s = Stream::new(&vec![10, 20]);
    s.feed(&record("o", "10", &id_hex("aa"), "0"));
    s.feed(&record("o", "11", &id_hex("bb"), "1"));
    s.feed(&record("i", "12", &rev_hex("aa"), "0"));
    assert_eq!(s.total(), 2);
    assert_eq!(s.counters()[0].spent(), 1);
    assert_eq!(s.counters()[1].spent(), 1);
    assert_eq!(s.counters()[0].spent() as f64 / s.total() as f64, 0.5);
    s.feed(&record("o", "20", &id_hex("cc"), "0"));
    assert_eq!(s.counters()[0].history(), &vec![Sample { spent: 1, live: 2 }]);
}

#[test]
fn default_window_sizes() {
    assert_eq!(window_sizes(), vec![2, 4, 16, 64, 144, 256, 1024, 4096, 16384, 65536]);
}

#[test]
fn halving_pairs_neighbours() {
    assert_eq!(halve(&vec![1.0, 3.0, 5.0, 7.0, 9.0], &mean), vec![2.0, 6.0, 9.0]);
    assert_eq!(halve(&Vec::<f64>::new(), &mean), Vec::<f64>::new());
}

#[test]
fn short_history_is_unchanged() {
    let v: Vec<f64> = (0..500).map(|i| i as f64).collect();
    let (r, passes) = reduce(&v, &mean);
    assert_eq!(passes, 0);
    assert_eq!(r, v);
    let (again, passes_again) = reduce(&r, &mean);
    assert_eq!(passes_again, 0);
    assert_eq!(again, r);
}

#[test]
fn long_history_is_halved() {
    let v: Vec<f64> = (0..1001).map(|i| i as f64).collect();
    let (r, passes) = reduce(&v, &mean);
    assert_eq!(passes, 2);
    assert_eq!(r.len(), 251);
    assert_eq!(r[0], 1.5);
    assert_eq!(r[250], 1000.0);
    let (again, passes_again) = reduce(&r, &mean);
    assert_eq!(passes_again, 0);
    assert_eq!(again, r);
    let big: Vec<f64> = vec![0.25; 100_000];
    let (rb, pb) = reduce(&big, &mean);
    assert!(rb.len() <= 500);
    assert_eq!(pb, 8);
}

#[test]
fn graph_points_steps() {
    assert!(graph_points(16, &Vec::<f64>::new(), &mean).is_empty());
    let short = graph_points(16, &vec![0.5, 0.25], &mean);
    assert_eq!(short, vec![(16, 0.5), (16, 0.25)]);
    let v: Vec<f64> = (0..1001).map(|i| i as f64).collect();
    let pts = graph_points(4, &v, &mean);
    assert_eq!(pts.len(), 251);
    assert_eq!(pts[0], (4, 1.5));
    assert_eq!(pts[1].0, 12);
    assert_eq!(pts[250].0, 4 + 250 * 8);
}
