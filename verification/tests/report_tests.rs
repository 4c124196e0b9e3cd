use chunkstats::chunk::accumulate;
use chunkstats::report::{key_less, render, report, Row};

fn output(input: &[u8]) -> String {
    let summary = accumulate(input).unwrap();
    String::from_utf8(render(&report(&summary))).unwrap()
}

#[test]
fn scenario_two_keys() {
    assert_eq!(output(b"A;10.0\nB;20.0\nA;30.0\n"), "A: 10.0/20.0/30.0\nB: 20.0/20.0/20.0");
}

#[test]
fn scenario_mean_zero() {
    assert_eq!(output(b"X;-5.5\nX;5.5\n"), "X: -5.5/0.0/5.5");
}

#[test]
fn rows_come_in_byte_order_of_keys() {
    let summary = accumulate(b"b;1.0\nab;2.0\na;3.0\nB;4.0\nabc;5.0\n").unwrap();
    let rows = report(&summary);
    let keys: Vec<&[u8]> = rows.iter().map(|r| r.key.as_slice()).collect();
    assert_eq!(keys, vec![&b"B"[..], &b"a"[..], &b"ab"[..], &b"abc"[..], &b"b"[..]]);
}

#[test]
fn row_carries_count_and_rounded_mean() {
    let summary = accumulate(b"K;0.1\nK;0.2\n").unwrap();
    let rows = report(&summary);
    assert_eq!(rows.len(), 1);
    assert_eq!((rows[0].count, rows[0].min, rows[0].mean, rows[0].max), (2, 1, 2, 2));
}

#[test]
fn key_less_is_lexicographic() {
    assert!(key_less(b"a", b"b"));
    assert!(key_less(b"a", b"ab"));
    assert!(key_less(b"", b"a"));
    assert!(!key_less(b"a", b"a"));
    assert!(!key_less(b"b", b"a"));
    assert!(!key_less(b"ab", b"a"));
    assert!(key_less(b"Z", b"a"));
    assert!(key_less(&[0x7f], &[0x80]));
}

#[test]
fn render_writes_one_fraction_digit() {
    let rows = vec![Row { key: b"k".to_vec(), count: 1, min: -1234, mean: 0, max: 7 }];
    assert_eq!(render(&rows), b"k: -123.4/0.0/0.7".to_vec());
}

#[test]
fn render_small_negative_keeps_its_sign() {
    let rows = vec![Row { key: b"k".to_vec(), count: 1, min: -3, mean: -3, max: -3 }];
    assert_eq!(render(&rows), b"k: -0.3/-0.3/-0.3".to_vec());
}

#[test]
fn render_of_no_rows_is_empty() {
    assert_eq!(render(&Vec::new()), Vec::<u8>::new());
}

#[test]
fn render_extreme_values() {
    let rows = vec![Row { key: Vec::new(), count: 1, min: i64::MIN, mean: 0, max: i64::MAX }];
    assert_eq!(
        render(&rows),
        b": -922337203685477580.8/0.0/922337203685477580.7".to_vec()
    );
}
