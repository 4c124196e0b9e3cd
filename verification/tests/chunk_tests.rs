use chunkstats::aggregate::{aggregate, aggregate_checked, process_chunk};
use chunkstats::chunk::accumulate;
use chunkstats::record::ParseError;
use chunkstats::summary::Summary;

fn quads(s: &Summary) -> Vec<(Vec<u8>, u64, i64, i64, i128)> {
    let mut v = Vec::new();
    for i in 0..s.len() {
        let r = s.stat_at(i);
        v.push((s.key_at(i).to_vec(), r.count, r.min, r.max, r.sum));
    }
    v.sort();
    v
}

const FILE: &[u8] =
    b"Oslo;-3.4\nLima;18.2\nOslo;4.0\nCairo;30.1\nLima;17.9\nOslo;-12.5\nCairo;28\nPerth;21.3\n";

#[test]
fn accumulate_counts_each_record_once() {
    let s = accumulate(FILE).unwrap();
    assert_eq!(s.total(), 8);
    assert_eq!(s.len(), 4);
    let oslo = s.get(b"Oslo").unwrap();
    assert_eq!((oslo.count, oslo.min, oslo.max, oslo.sum), (3, -125, 40, -119));
    let cairo = s.get(b"Cairo").unwrap();
    assert_eq!((cairo.count, cairo.min, cairo.max, cairo.sum), (2, 280, 301, 581));
}

#[test]
fn accumulate_skips_empty_lines() {
    let s = accumulate(b"\n\nA;1.0\n\nA;2.0\n\n").unwrap();
    assert_eq!(s.total(), 2);
    assert_eq!(s.get(b"A").unwrap().sum, 30);
}

#[test]
fn accumulate_of_nothing_is_empty() {
    let s = accumulate(b"").unwrap();
    assert_eq!(s.len(), 0);
    assert_eq!(s.total(), 0);
}

#[test]
fn accumulate_reads_a_last_line_without_newline() {
    let s = accumulate(b"A;1.0\nB;2.0").unwrap();
    assert_eq!(s.total(), 2);
    assert_eq!(s.get(b"B").unwrap().min, 20);
}

#[test]
fn accumulate_keeps_keys_that_are_no_text() {
    let s = accumulate(&[0xff, b';', b'1', b'.', b'0', b'\n']).unwrap();
    assert_eq!(s.get(&[0xff]).unwrap().count, 1);
}

#[test]
fn line_without_separator_fails() {
    assert_eq!(accumulate(b"A;1.0\nB 2.0\nC;3.0\n").err(), Some(ParseError::MissingSeparator));
}

#[test]
fn line_with_bad_number_fails() {
    assert_eq!(accumulate(b"A;1.0\nB;two\nC;3.0\n").err(), Some(ParseError::InvalidNumber));
}

#[test]
fn first_fault_is_reported() {
    assert_eq!(accumulate(b"A;x\nB\n").err(), Some(ParseError::InvalidNumber));
    assert_eq!(accumulate(b"A\nB;x\n").err(), Some(ParseError::MissingSeparator));
}

#[test]
fn any_chunk_size_gives_the_summary_of_one_chunk() {
    let whole = accumulate(FILE).unwrap();
    for chunk_size in [13usize, 14, 17, 20, 31, 50, 81, 82, 1000] {
        let parts = aggregate(FILE, chunk_size, 12).unwrap();
        assert_eq!(parts.total(), 8);
        assert_eq!(quads(&parts), quads(&whole));
    }
}

#[test]
fn aggregate_leaves_out_a_trailing_partial_line() {
    let s = aggregate(b"A;1.0\nB;2.0\nC;3", 8, 7).unwrap();
    assert_eq!(s.total(), 2);
    assert!(s.get(b"C").is_none());
}

#[test]
fn aggregate_reports_a_fault_in_any_chunk() {
    let data = b"A;1.0\nB;2.0\nC 3.0\nD;4.0\n";
    assert_eq!(aggregate(data, 8, 7).err(), Some(ParseError::MissingSeparator));
    assert_eq!(aggregate(data, 100, 7).err(), Some(ParseError::MissingSeparator));
    let bad = b"A;1.0\nB;2.0\nC;3.0\nD;hot\n";
    assert_eq!(aggregate(bad, 8, 7).err(), Some(ParseError::InvalidNumber));
}

#[test]
fn aggregate_reports_a_key_that_is_no_text() {
    let data = [b'A', b';', b'1', b'\n', 0xc3, b';', b'2', b'\n'];
    assert_eq!(aggregate(&data, 5, 4).err(), Some(ParseError::InvalidKeyEncoding));
}

#[test]
fn small_file_is_one_chunk() {
    // a file shorter than a chunk: the worker that claims offset 0 does all the work,
    // and every later offset lies past the end of the file
    let data = b"X;-5.5\nX;5.5\n";
    let mut one = Summary::new();
    process_chunk(data, 0, 16 * 1024 * 1024, 64, &mut one).unwrap();
    let many = aggregate(data, 16 * 1024 * 1024, 64).unwrap();
    assert_eq!(quads(&one), quads(&many));
    assert_eq!(quads(&one), vec![(b"X".to_vec(), 2, -55, 55, 0)]);
    assert!(chunkstats::align::plan_read(16 * 1024 * 1024, data.len() as u64, 16 * 1024 * 1024, 64)
        .is_none());
}

#[test]
fn process_chunk_takes_only_its_window() {
    let mut s = Summary::new();
    // chunk 1 of size 13: bytes 13..26, aligned to the records that begin in it
    process_chunk(FILE, 13, 13, 12, &mut s).unwrap();
    assert_eq!(quads(&s), vec![(b"Lima".to_vec(), 1, 182, 182, 182)]);
}

#[test]
fn aggregate_checked_refuses_a_short_excess() {
    assert!(aggregate_checked(FILE, 13, 10).is_none());
    assert!(aggregate_checked(FILE, 13, 0).is_none());
    assert!(aggregate_checked(FILE, 12, 12).is_none());
    let s = aggregate_checked(FILE, 13, 11).unwrap().unwrap();
    assert_eq!(quads(&s), quads(&accumulate(FILE).unwrap()));
}

#[test]
fn chunks_may_be_folded_in_any_order() {
    let chunk_size = 20usize;
    let excess = 12usize;
    let offsets: Vec<usize> = (0..=FILE.len() / chunk_size).map(|k| k * chunk_size).collect();
    let mut forward = Summary::new();
    for &o in offsets.iter() {
        process_chunk(FILE, o, chunk_size, excess, &mut forward).unwrap();
    }
    let mut backward = Summary::new();
    for &o in offsets.iter().rev() {
        process_chunk(FILE, o, chunk_size, excess, &mut backward).unwrap();
    }
    assert_eq!(forward.total(), 8);
    assert_eq!(quads(&forward), quads(&backward));
    assert_eq!(quads(&forward), quads(&accumulate(FILE).unwrap()));
}

#[test]
fn many_keys_are_kept_apart() {
    let mut data = Vec::new();
    for round in 0..3i64 {
        for k in 0..500i64 {
            data.extend_from_slice(format!("station-{k};{}.{}\n", k + round, round).as_bytes());
        }
    }
    let whole = accumulate(&data).unwrap();
    assert_eq!(whole.len(), 500);
    assert_eq!(whole.total(), 1500);
    let r = whole.get(b"station-42").unwrap();
    assert_eq!((r.count, r.min, r.max, r.sum), (3, 420, 442, 420 + 431 + 442));
    assert!(whole.get(b"station-500").is_none());
    let parts = aggregate(&data, 1000, 20).unwrap();
    assert_eq!(quads(&parts), quads(&whole));
}
