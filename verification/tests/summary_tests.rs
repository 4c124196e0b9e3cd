use chunkstats::chunk::accumulate;
use chunkstats::record::ParseError;
use chunkstats::stat::StatRecord;
use chunkstats::summary::{bytes_equal, keys_are_text, merge_in, Summary};

fn quad(s: &Summary, key: &[u8]) -> Option<(u64, i64, i64, i128)> {
    s.get(key).map(|r| (r.count, r.min, r.max, r.sum))
}

#[test]
fn new_summary_is_empty() {
    let s = Summary::new();
    assert_eq!(s.len(), 0);
    assert_eq!(s.total(), 0);
    assert!(s.get(b"A").is_none());
}

#[test]
fn bytes_equal_compares_content() {
    assert!(bytes_equal(b"abc", b"abc"));
    assert!(bytes_equal(b"", b""));
    assert!(!bytes_equal(b"abc", b"abd"));
    assert!(!bytes_equal(b"abc", b"ab"));
}

#[test]
fn record_inserts_then_updates() {
    let mut s = Summary::new();
    s.record(b"A", 100);
    s.record(b"B", 200);
    s.record(b"A", 300);
    assert_eq!(s.len(), 2);
    assert_eq!(s.total(), 3);
    assert_eq!(quad(&s, b"A"), Some((2, 100, 300, 400)));
    assert_eq!(quad(&s, b"B"), Some((1, 200, 200, 200)));
    assert_eq!(s.key_at(0), b"A");
    assert_eq!(s.key_at(1), b"B");
    assert_eq!(s.stat_at(1).sum, 200);
}

#[test]
fn absorb_merges_or_inserts() {
    let mut s = Summary::new();
    s.record(b"A", 100);
    let mut other = StatRecord::from_item(-5);
    other.update(7);
    s.absorb(b"A", other);
    s.absorb(b"C", other);
    assert_eq!(s.total(), 5);
    assert_eq!(quad(&s, b"A"), Some((3, -5, 100, 102)));
    assert_eq!(quad(&s, b"C"), Some((2, -5, 7, 2)));
}

#[test]
fn merge_in_folds_a_local_summary() {
    let mut global = accumulate(b"A;1.0\nB;2.0\n").unwrap();
    let local = accumulate(b"B;-4.0\nC;9.9\nB;0.5\n").unwrap();
    assert_eq!(merge_in(&mut global, &local), Ok(()));
    assert_eq!(global.len(), 3);
    assert_eq!(global.total(), 5);
    assert_eq!(quad(&global, b"A"), Some((1, 10, 10, 10)));
    assert_eq!(quad(&global, b"B"), Some((3, -40, 20, -15)));
    assert_eq!(quad(&global, b"C"), Some((1, 99, 99, 99)));
}

#[test]
fn merge_in_either_order_gives_the_same() {
    let a = accumulate(b"A;1.0\nB;2.0\n").unwrap();
    let b = accumulate(b"B;-4.0\nC;9.9\n").unwrap();
    let mut ab = Summary::new();
    merge_in(&mut ab, &a).unwrap();
    merge_in(&mut ab, &b).unwrap();
    let mut ba = Summary::new();
    merge_in(&mut ba, &b).unwrap();
    merge_in(&mut ba, &a).unwrap();
    for key in [&b"A"[..], &b"B"[..], &b"C"[..]] {
        assert_eq!(quad(&ab, key), quad(&ba, key));
    }
    assert_eq!(ab.total(), ba.total());
}

#[test]
fn merge_in_rejects_a_key_that_is_no_text() {
    let mut global = accumulate(b"A;1.0\n").unwrap();
    let local = accumulate(&[b'B', b';', b'1', b'\n', 0xff, 0xfe, b';', b'1', b'.', b'0', b'\n'])
        .unwrap();
    assert!(!keys_are_text(&local));
    assert_eq!(merge_in(&mut global, &local), Err(ParseError::InvalidKeyEncoding));
    assert_eq!(global.len(), 1);
    assert_eq!(global.total(), 1);
    assert!(global.get(b"B").is_none());
}

#[test]
fn keys_with_many_byte_characters_are_text() {
    let local = accumulate("Ürümqi;1.0\nSão Paulo;2.0\n".as_bytes()).unwrap();
    assert!(keys_are_text(&local));
    let mut global = Summary::new();
    assert_eq!(merge_in(&mut global, &local), Ok(()));
    assert_eq!(quad(&global, "Ürümqi".as_bytes()), Some((1, 10, 10, 10)));
}
